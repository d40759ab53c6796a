//! What the library scanner decides about a book: metadata from package
//! documents and embedded EPUB data, cover discovery, and fallbacks taken
//! from file and folder names.

use crate::opf::{element_texts, first_element_text, meta_content, texts_of, first_text_of, meta_of, has_word, contains_word};
use crate::paths::{normal_parts, spec_walk_join, walk_join};
use crate::text::{
    contains_chars, contains_seq, is_digit, lower, replace_char, replace_chars, split, split_chars,
    string_of, to_chars, to_lower, trim, trim_chars, views, is_ws, is_whitespace, chars_eq,
};
use crate::xml::{attr, attribute, first_where, is_named, node_is_named, parse_xml, xml_document, XmlNode, lemma_first_where_found, lemma_first_where_none};
use crate::epub_validation::spec_rootfile;
use crate::zipfile::{entry_named, zip_entries, zip_open, zip_parse, zip_read_named};
use std::io::Cursor;
use vstd::prelude::*;
use vstd::string::StringSliceAdditionalSpecFns;
use zip::ZipArchive;

verus! {

/// Whether `c` is stripped from the front of a numbered title.
pub open spec fn is_title_junk(c: char) -> bool {
    is_digit(c) || c == ' ' || c == '-' || c == '_'
}

/// `s` without its leading title junk.
pub open spec fn drop_title_junk(s: Seq<char>) -> Seq<char>
    decreases s.len(),
{
    if s.len() > 0 && is_title_junk(s[0]) {
        drop_title_junk(s.drop_first())
    } else {
        s
    }
}

/// A title taken from a file name: trimmed, without leading track numbers
/// and separators, underscores read as spaces.
pub open spec fn spec_clean_title(v: Seq<char>) -> Seq<char> {
    replace_char(drop_title_junk(trim(v)), '_', ' ')
}

pub proof fn lemma_drop_title_junk_skip(s: Seq<char>, k: int)
    requires
        0 <= k <= s.len(),
        forall|j: int| 0 <= j < k ==> is_title_junk(s[j]),
        k == s.len() || !is_title_junk(s[k]),
    ensures
        drop_title_junk(s) == s.skip(k),
    decreases k,
{
    if k == 0 {
        assert(s.skip(0) =~= s);
    } else {
        assert forall|j: int| 0 <= j < k - 1 implies is_title_junk(s.drop_first()[j]) by {
            assert(s.drop_first()[j] == s[j + 1]);
        }
        lemma_drop_title_junk_skip(s.drop_first(), k - 1);
        assert(s.drop_first().skip(k - 1) =~= s.skip(k));
    }
}

/// `clean_title`: the title that a numbered file name such as
/// `02 - Prince Caspian` stands for.
pub fn clean_title(value: &str) -> (r: String)
    ensures
        r@ == spec_clean_title(value@),
{
    let v = to_chars(value);
    let t = trim_chars(v.as_slice());
    let mut k: usize = 0;
    while k < t.len() && (('0' <= t[k] && t[k] <= '9') || t[k] == ' ' || t[k] == '-' || t[k]
        == '_')
        invariant
            k <= t@.len(),
            forall|j: int| 0 <= j < k ==> is_title_junk(t@[j]),
        decreases t@.len() - k,
    {
        k = k + 1;
    }
    proof {
        lemma_drop_title_junk_skip(t@, k as int);
    }
    let mut rest: Vec<char> = Vec::new();
    let mut i: usize = k;
    while i < t.len()
        invariant
            k <= i <= t@.len(),
            rest@ == t@.subrange(k as int, i as int),
        decreases t@.len() - i,
    {
        rest.push(t[i]);
        i = i + 1;
        assert(rest@ =~= t@.subrange(k as int, i as int));
    }
    assert(rest@ =~= t@.skip(k as int));
    let replaced = replace_chars(rest.as_slice(), '_', ' ');
    string_of(replaced.as_slice())
}

/// The leading run of digits and dots after leading whitespace: the part
/// of a file name such as `02 - Title` that is read as a series position.
pub open spec fn number_prefix_len(s: Seq<char>) -> int
    decreases s.len(),
{
    if s.len() > 0 && (is_digit(s[0]) || s[0] == '.') {
        1 + number_prefix_len(s.drop_first())
    } else {
        0
    }
}

pub open spec fn spec_index_prefix(v: Seq<char>) -> Option<Seq<char>> {
    let p = crate::text::trim_start(v);
    if number_prefix_len(p) > 0 {
        Some(p.take(number_prefix_len(p)))
    } else {
        None
    }
}

pub proof fn lemma_number_prefix_len(s: Seq<char>, k: int)
    requires
        0 <= k <= s.len(),
        forall|j: int| 0 <= j < k ==> (is_digit(s[j]) || s[j] == '.'),
        k == s.len() || !(is_digit(s[k]) || s[k] == '.'),
    ensures
        number_prefix_len(s) == k,
    decreases k,
{
    if k > 0 {
        assert forall|j: int| 0 <= j < k - 1 implies (is_digit(s.drop_first()[j]) || s.drop_first()[j] == '.') by {
            assert(s.drop_first()[j] == s[j + 1]);
        }
        lemma_number_prefix_len(s.drop_first(), k - 1);
    }
}

/// The text of a file name's series position (`filename_index` reads it
/// as a number): leading whitespace skipped, then the longest run of ASCII
/// digits and dots, when it is not empty.
pub fn filename_index_text(value: &str) -> (r: Option<String>)
    ensures
        match r {
            Some(s) => spec_index_prefix(value@) == Some(s@),
            None => spec_index_prefix(value@) is None,
        },
{
    let v = to_chars(value);
    let mut a: usize = 0;
    while a < v.len() && is_whitespace(v[a])
        invariant
            a <= v@.len(),
            forall|j: int| 0 <= j < a ==> is_ws(v@[j]),
        decreases v@.len() - a,
    {
        a = a + 1;
    }
    proof {
        crate::text::lemma_trim_start_skip(v@, a as int);
    }
    let ghost p = v@.skip(a as int);
    let mut out: Vec<char> = Vec::new();
    let mut i: usize = a;
    while i < v.len() && (('0' <= v[i] && v[i] <= '9') || v[i] == '.')
        invariant
            a <= i <= v@.len(),
            p == v@.skip(a as int),
            out@ == p.take(i - a),
            forall|j: int| 0 <= j < i - a ==> (is_digit(p[j]) || p[j] == '.'),
        decreases v@.len() - i,
    {
        out.push(v[i]);
        i = i + 1;
        assert(out@ =~= p.take(i - a));
    }
    proof {
        lemma_number_prefix_len(p, i - a);
    }
    if out.len() > 0 {
        Some(string_of(out.as_slice()))
    } else {
        None
    }
}


/// `zip_join`: the archive name of `href` relative to the package document
/// at `opf_path`; backslashes in `href` read as slashes.
pub fn zip_join(opf_path: &str, href: &str) -> (r: String)
    ensures
        r@ == spec_walk_join(opf_path@, replace_char(href@, '\\', '/')),
{
    let o = to_chars(opf_path);
    let h = to_chars(href);
    let normalized = replace_chars(h.as_slice(), '\\', '/');
    let joined = walk_join(o.as_slice(), normalized.as_slice());
    string_of(joined.as_slice())
}

/// The last path component, as `Path::file_name` gives it (separator `/`):
/// none when the path ends in `..` or has no normal component.
pub open spec fn path_file_name(p: Seq<char>) -> Option<Seq<char>> {
    let parts = normal_parts(split(p, '/'));
    if parts.len() == 0 || parts.last() == seq!['.', '.'] {
        None
    } else {
        Some(parts.last())
    }
}

/// The index of the last `.` in `s`, or -1.
pub open spec fn last_dot(s: Seq<char>) -> int
    decreases s.len(),
{
    if s.len() == 0 {
        -1
    } else if s.last() == '.' {
        s.len() - 1
    } else {
        last_dot(s.drop_last())
    }
}

/// `Path::extension`: what follows the last dot of the file name, unless
/// that dot begins the name.
pub open spec fn path_extension(p: Seq<char>) -> Option<Seq<char>> {
    match path_file_name(p) {
        None => None,
        Some(f) => if last_dot(f) <= 0 {
            None
        } else {
            Some(f.skip(last_dot(f) + 1))
        },
    }
}

pub open spec fn png_signature() -> Seq<u8> {
    seq![0x89u8, 0x50u8, 0x4eu8, 0x47u8, 0x0du8, 0x0au8, 0x1au8, 0x0au8]
}

pub open spec fn bytes_start(b: Seq<u8>, p: Seq<u8>) -> bool {
    p.len() <= b.len() && b.subrange(0, p.len() as int) == p
}

pub open spec fn is_image_extension(e: Seq<char>) -> bool {
    e == "jpg"@ || e == "jpeg"@ || e == "png"@ || e == "webp"@
}

/// The file extension of a cover: from the image's signature when it is
/// PNG, JPEG or WebP, else from the reference's extension when it names one
/// of those, else `jpg`.
pub open spec fn spec_cover_extension(href: Seq<char>, bytes: Seq<u8>) -> Seq<char> {
    if bytes_start(bytes, png_signature()) {
        "png"@
    } else if bytes_start(bytes, seq![0xffu8, 0xd8u8, 0xffu8]) {
        "jpg"@
    } else if bytes_start(bytes, seq![0x52u8, 0x49u8, 0x46u8, 0x46u8]) && bytes.len() >= 12
        && bytes.subrange(8, 12) == seq![0x57u8, 0x45u8, 0x42u8, 0x50u8] {
        "webp"@
    } else {
        match path_extension(href) {
            Some(e) => if is_image_extension(lower(e)) {
                lower(e)
            } else {
                "jpg"@
            },
            None => "jpg"@,
        }
    }
}

fn bytes_start_with(b: &[u8], p: &[u8]) -> (r: bool)
    ensures
        r == bytes_start(b@, p@),
{
    if p.len() > b.len() {
        return false;
    }
    let mut i: usize = 0;
    while i < p.len()
        invariant
            p@.len() <= b@.len(),
            i <= p@.len(),
            forall|j: int| 0 <= j < i ==> b@[j] == p@[j],
        decreases p@.len() - i,
    {
        if b[i] != p[i] {
            assert(b@.subrange(0, p@.len() as int)[i as int] != p@[i as int]);
            return false;
        }
        i = i + 1;
    }
    assert(b@.subrange(0, p@.len() as int) =~= p@);
    true
}

/// The last normal component of a path.
fn file_name_chars(p: &[char]) -> (r: Option<Vec<char>>)
    ensures
        match r {
            Some(f) => path_file_name(p@) == Some(f@),
            None => path_file_name(p@) is None,
        },
{
    let pieces = split_chars(p, '/');
    let ghost ps = split(p@, '/');
    let mut last: Option<usize> = None;
    let mut i: usize = 0;
    assert(ps.take(0) =~= Seq::<Seq<char>>::empty());
    while i < pieces.len()
        invariant
            i <= pieces@.len(),
            pieces@.len() == ps.len(),
            ps == split(p@, '/'),
            forall|q: int| 0 <= q < ps.len() ==> (#[trigger] pieces@[q])@ == ps[q],
            match last {
                None => normal_parts(ps.take(i as int)).len() == 0,
                Some(k) => k < i && normal_parts(ps.take(i as int)).len() > 0
                    && normal_parts(ps.take(i as int)).last() == ps[k as int],
            },
        decreases pieces@.len() - i,
    {
        assert(ps.take(i + 1).drop_last() =~= ps.take(i as int));
        assert(ps.take(i + 1).last() == ps[i as int]);
        let piece = &pieces[i];
        if piece.len() > 0 && !(piece.len() == 1 && piece[0] == '.') {
            assert(piece@ != seq!['.']);
            last = Some(i);
        } else {
            assert(piece@.len() == 0 || piece@ =~= seq!['.']);
        }
        i = i + 1;
    }
    assert(ps.take(ps.len() as int) =~= ps);
    match last {
        None => None,
        Some(k) => {
            let f = &pieces[k];
            if f.len() == 2 && f[0] == '.' && f[1] == '.' {
                assert(f@ =~= seq!['.', '.']);
                None
            } else {
                assert(f@ != seq!['.', '.']);
                Some(f.clone())
            }
        },
    }
}

/// `Path::extension` of a `/`-separated path.
pub fn path_extension_chars(p: &[char]) -> (r: Option<Vec<char>>)
    ensures
        match r {
            Some(e) => path_extension(p@) == Some(e@),
            None => path_extension(p@) is None,
        },
{
    let f = match file_name_chars(p) {
        None => return None,
        Some(f) => f,
    };
    let mut k: usize = f.len();
    assert(f@.take(f@.len() as int) =~= f@);
    while k > 0 && f[k - 1] != '.'
        invariant
            k <= f@.len(),
            last_dot(f@) == last_dot(f@.take(k as int)),
        decreases k,
    {
        assert(f@.take(k as int).drop_last() =~= f@.take(k - 1));
        k = k - 1;
    }
    proof {
        assert(f@.take(f@.len() as int) =~= f@);
        if k > 0 {
            assert(f@.take(k as int).last() == f@[k - 1]);
        }
    }
    if k <= 1 {
        return None;
    }
    let mut e: Vec<char> = Vec::new();
    let mut i: usize = k;
    while i < f.len()
        invariant
            k <= i <= f@.len(),
            e@ == f@.subrange(k as int, i as int),
        decreases f@.len() - i,
    {
        e.push(f[i]);
        i = i + 1;
        assert(e@ =~= f@.subrange(k as int, i as int));
    }
    assert(e@ =~= f@.skip(k as int));
    Some(e)
}

/// `cover_extension`: the file extension under which cover image `bytes`,
/// referenced as `href`, is stored.
pub fn cover_extension(href: &str, bytes: &[u8]) -> (r: String)
    ensures
        r@ == spec_cover_extension(href@, bytes@),
{
    let png: [u8; 8] = [0x89, 0x50, 0x4e, 0x47, 0x0d, 0x0a, 0x1a, 0x0a];
    let jpg: [u8; 3] = [0xff, 0xd8, 0xff];
    let riff: [u8; 4] = [0x52, 0x49, 0x46, 0x46];
    assert(png@ =~= png_signature());
    assert(jpg@ =~= seq![0xffu8, 0xd8u8, 0xffu8]);
    assert(riff@ =~= seq![0x52u8, 0x49u8, 0x46u8, 0x46u8]);
    if bytes_start_with(bytes, &png) {
        return "png".to_owned();
    }
    if bytes_start_with(bytes, &jpg) {
        return "jpg".to_owned();
    }
    if bytes_start_with(bytes, &riff) && bytes.len() >= 12 && bytes[8] == 0x57 && bytes[9] == 0x45
        && bytes[10] == 0x42 && bytes[11] == 0x50 {
        assert(bytes@.subrange(8, 12) =~= seq![0x57u8, 0x45u8, 0x42u8, 0x50u8]);
        return "webp".to_owned();
    }
    if bytes_start_with(bytes, &riff) && bytes.len() >= 12 {
        assert(bytes@.subrange(8, 12) != seq![0x57u8, 0x45u8, 0x42u8, 0x50u8] || (bytes[8] == 0x57
            && bytes[9] == 0x45 && bytes[10] == 0x42 && bytes[11] == 0x50)) by {
            if bytes@.subrange(8, 12) == seq![0x57u8, 0x45u8, 0x42u8, 0x50u8] {
                assert(bytes@.subrange(8, 12)[0] == bytes@[8]);
                assert(bytes@.subrange(8, 12)[1] == bytes@[9]);
                assert(bytes@.subrange(8, 12)[2] == bytes@[10]);
                assert(bytes@.subrange(8, 12)[3] == bytes@[11]);
            }
        }
    }
    let h = to_chars(href);
    match path_extension_chars(h.as_slice()) {
        None => "jpg".to_owned(),
        Some(e) => {
            let lowered = to_lower(e.as_slice());
            let l = lowered.as_slice();
            let jpg_name = to_chars("jpg");
            let jpeg_name = to_chars("jpeg");
            let png_name = to_chars("png");
            let webp_name = to_chars("webp");
            if chars_eq(l, jpg_name.as_slice()) || chars_eq(l, jpeg_name.as_slice()) || chars_eq(
                l,
                png_name.as_slice(),
            ) || chars_eq(l, webp_name.as_slice()) {
                string_of(l)
            } else {
                "jpg".to_owned()
            }
        },
    }
}


/// Book metadata read from a package document.
#[derive(Debug)]
pub struct Metadata {
    pub title: String,
    pub subtitle: Option<String>,
    pub authors: Vec<String>,
    pub description: Option<String>,
    pub published: Option<String>,
    pub tags: Vec<String>,
    pub identifier: Option<String>,
    pub series: Option<String>,
    /// The text of `calibre:series_index`; the caller reads it as a number.
    pub series_index_text: Option<String>,
}

pub open spec fn opt_view(o: Option<String>) -> Option<Seq<char>> {
    match o {
        Some(s) => Some(s@),
        None => None,
    }
}

pub open spec fn strs(v: Seq<String>) -> Seq<Seq<char>> {
    v.map_values(|s: String| s@)
}

pub proof fn lemma_strs_push(v: Seq<String>, s: String)
    ensures
        strs(v.push(s)) == strs(v).push(s@),
{
    assert forall|k: int| 0 <= k < v.len() + 1 implies #[trigger] strs(v.push(s))[k] == strs(v).push(s@)[k] by {
        if k < v.len() {
            assert(v.push(s)[k] == v[k]);
        }
    }
    assert(strs(v.push(s)) =~= strs(v).push(s@));
}

/// What `parse_metadata_xml` reads from a parsed package document.
pub open spec fn metadata_from(m: Metadata, nodes: Seq<XmlNode>) -> bool {
    &&& m.title@ == (match first_element_text(nodes, "title"@) {
        Some(t) => t,
        None => Seq::empty(),
    })
    &&& opt_view(m.subtitle) == meta_content(nodes, "calibre:subtitle"@)
    &&& strs(m.authors@) == element_texts(nodes, "creator"@)
    &&& opt_view(m.description) == first_element_text(nodes, "description"@)
    &&& opt_view(m.published) == first_element_text(nodes, "date"@)
    &&& strs(m.tags@) == element_texts(nodes, "subject"@)
    &&& opt_view(m.identifier) == first_element_text(nodes, "identifier"@)
    &&& opt_view(m.series) == meta_content(nodes, "calibre:series"@)
    &&& opt_view(m.series_index_text) == meta_content(nodes, "calibre:series_index"@)
}

fn opt_string(o: Option<String>) -> (r: Option<String>)
    ensures
        opt_view(r) == opt_view(o),
{
    o
}

/// `parse_metadata_xml`: the metadata in a package document, or `None`
/// when it is not well-formed XML.
pub fn parse_metadata_xml(xml: &str) -> (r: Option<Metadata>)
    ensures
        match r {
            Some(m) => xml_document(xml@) matches Some(nodes) && metadata_from(m, nodes),
            None => xml_document(xml@) is None,
        },
{
    let nodes = match parse_xml(xml) {
        Ok(nodes) => nodes,
        Err(_) => return None,
    };
    Some(metadata_of_nodes(&nodes))
}

/// The metadata that the nodes of a parsed package document carry.
pub fn metadata_of_nodes(nodes: &Vec<XmlNode>) -> (m: Metadata)
    ensures
        metadata_from(m, nodes@),
{
    let title = match first_text_of(&nodes, to_chars("title").as_slice()) {
        Some(t) => t,
        None => String::new(),
    };
    let subtitle = meta_of(&nodes, to_chars("calibre:subtitle").as_slice());
    let authors = texts_of(&nodes, to_chars("creator").as_slice());
    let description = first_text_of(&nodes, to_chars("description").as_slice());
    let published = first_text_of(&nodes, to_chars("date").as_slice());
    let tags = texts_of(&nodes, to_chars("subject").as_slice());
    let identifier = first_text_of(&nodes, to_chars("identifier").as_slice());
    let series = meta_of(&nodes, to_chars("calibre:series").as_slice());
    let series_index_text = meta_of(&nodes, to_chars("calibre:series_index").as_slice());
    let m = Metadata {
        title,
        subtitle: opt_string(subtitle),
        authors,
        description: opt_string(description),
        published: opt_string(published),
        tags,
        identifier: opt_string(identifier),
        series: opt_string(series),
        series_index_text: opt_string(series_index_text),
    };
    m
}

/// What merging `fallback` into `target` gives: each field of `target`
/// that is empty or absent takes `fallback`'s, the others stay. The
/// series position is merged by the caller, which reads it as a number.
pub open spec fn merged(new: Metadata, target: Metadata, fallback: Metadata) -> bool {
    &&& new.title@ == (if target.title@.len() == 0 { fallback.title@ } else { target.title@ })
    &&& opt_view(new.subtitle) == (if target.subtitle is None { opt_view(fallback.subtitle) } else { opt_view(target.subtitle) })
    &&& strs(new.authors@) == (if target.authors@.len() == 0 { strs(fallback.authors@) } else { strs(target.authors@) })
    &&& opt_view(new.description) == (if target.description is None { opt_view(fallback.description) } else { opt_view(target.description) })
    &&& opt_view(new.published) == (if target.published is None { opt_view(fallback.published) } else { opt_view(target.published) })
    &&& strs(new.tags@) == (if target.tags@.len() == 0 { strs(fallback.tags@) } else { strs(target.tags@) })
    &&& opt_view(new.identifier) == (if target.identifier is None { opt_view(fallback.identifier) } else { opt_view(target.identifier) })
    &&& opt_view(new.series) == (if target.series is None { opt_view(fallback.series) } else { opt_view(target.series) })
    &&& opt_view(new.series_index_text) == opt_view(target.series_index_text)
}

pub fn clone_opt(o: &Option<String>) -> (r: Option<String>)
    ensures
        opt_view(r) == opt_view(*o),
{
    match o {
        Some(s) => Some(s.clone()),
        None => None,
    }
}

/// Merging fills every gap of the target from the fallback and keeps all
/// that the target has: an empty title, subtitle, author list, description,
/// publication date, tag list, identifier or series is the fallback's
/// afterwards; one that is present stays as it was; the series position
/// written in the target is never replaced.
pub proof fn lemma_merge_fills_gaps(new: Metadata, target: Metadata, fallback: Metadata)
    requires
        merged(new, target, fallback),
    ensures
        target.title@.len() == 0 ==> new.title@ == fallback.title@,
        target.title@.len() > 0 ==> new.title@ == target.title@,
        target.subtitle is None ==> opt_view(new.subtitle) == opt_view(fallback.subtitle),
        target.subtitle is Some ==> opt_view(new.subtitle) == opt_view(target.subtitle),
        target.authors@.len() == 0 ==> strs(new.authors@) == strs(fallback.authors@),
        target.authors@.len() > 0 ==> strs(new.authors@) == strs(target.authors@),
        target.description is None ==> opt_view(new.description) == opt_view(fallback.description),
        target.description is Some ==> opt_view(new.description) == opt_view(target.description),
        target.published is None ==> opt_view(new.published) == opt_view(fallback.published),
        target.published is Some ==> opt_view(new.published) == opt_view(target.published),
        target.tags@.len() == 0 ==> strs(new.tags@) == strs(fallback.tags@),
        target.tags@.len() > 0 ==> strs(new.tags@) == strs(target.tags@),
        target.identifier is None ==> opt_view(new.identifier) == opt_view(fallback.identifier),
        target.identifier is Some ==> opt_view(new.identifier) == opt_view(target.identifier),
        target.series is None ==> opt_view(new.series) == opt_view(fallback.series),
        target.series is Some ==> opt_view(new.series) == opt_view(target.series),
        opt_view(new.series_index_text) == opt_view(target.series_index_text),
{
}

/// Merging twice with the same fallback gives what merging once gave.
pub proof fn lemma_merge_twice(once: Metadata, twice: Metadata, target: Metadata, fallback: Metadata)
    requires
        merged(once, target, fallback),
        merged(twice, once, fallback),
    ensures
        twice.title@ == once.title@,
        opt_view(twice.subtitle) == opt_view(once.subtitle),
        strs(twice.authors@) == strs(once.authors@),
        opt_view(twice.description) == opt_view(once.description),
        opt_view(twice.published) == opt_view(once.published),
        strs(twice.tags@) == strs(once.tags@),
        opt_view(twice.identifier) == opt_view(once.identifier),
        opt_view(twice.series) == opt_view(once.series),
        opt_view(twice.series_index_text) == opt_view(once.series_index_text),
{
    assert(strs(once.authors@).len() == once.authors@.len());
    assert(strs(target.authors@).len() == target.authors@.len());
    assert(strs(fallback.authors@).len() == fallback.authors@.len());
    assert(strs(once.tags@).len() == once.tags@.len());
    assert(strs(target.tags@).len() == target.tags@.len());
    assert(strs(fallback.tags@).len() == fallback.tags@.len());
}

pub fn clone_strings(v: &Vec<String>) -> (r: Vec<String>)
    ensures
        r@ == v@,
{
    let mut r: Vec<String> = Vec::new();
    let mut i: usize = 0;
    while i < v.len()
        invariant
            i <= v@.len(),
            r@ == v@.take(i as int),
        decreases v@.len() - i,
    {
        r.push(v[i].clone());
        i = i + 1;
        assert(r@ =~= v@.take(i as int));
    }
    assert(v@.take(v@.len() as int) =~= v@);
    r
}

/// `merge_metadata`: fills what `target` lacks from `fallback`.
pub fn merge_metadata(target: &mut Metadata, fallback: &Metadata)
    ensures
        merged(*final(target), *old(target), *fallback),
{
    if target.title.as_str().is_empty() {
        target.title = fallback.title.clone();
    }
    if target.subtitle.is_none() {
        target.subtitle = clone_opt(&fallback.subtitle);
    }
    if target.authors.len() == 0 {
        target.authors = clone_strings(&fallback.authors);
    }
    if target.description.is_none() {
        target.description = clone_opt(&fallback.description);
    }
    if target.published.is_none() {
        target.published = clone_opt(&fallback.published);
    }
    if target.tags.len() == 0 {
        target.tags = clone_strings(&fallback.tags);
    }
    if target.identifier.is_none() {
        target.identifier = clone_opt(&fallback.identifier);
    }
    if target.series.is_none() {
        target.series = clone_opt(&fallback.series);
    }
}


pub open spec fn is_cover_property_item(n: XmlNode) -> bool {
    is_named(n, "item"@) && (attr(n, "properties"@) matches Some(p) && has_word(p, "cover-image"@))
}

pub open spec fn is_item_with_id(n: XmlNode, id: Seq<char>) -> bool {
    is_named(n, "item"@) && attr(n, "id"@) == Some(id)
}

pub open spec fn is_item_mentioning_cover(n: XmlNode) -> bool {
    is_named(n, "item"@) && (attr(n, "id"@) matches Some(i) && contains_seq(lower(i), "cover"@))
}

/// The manifest item that holds the cover: the first with the
/// `cover-image` property, else the one named by `<meta name="cover">`,
/// else the first whose id mentions "cover".
pub open spec fn spec_cover_item(nodes: Seq<XmlNode>) -> Option<XmlNode> {
    match first_where(nodes, |n: XmlNode| is_cover_property_item(n)) {
        Some(n) => Some(n),
        None => match meta_content(nodes, "cover"@) {
            Some(id) => match first_where(nodes, |n: XmlNode| is_item_with_id(n, id)) {
                Some(n) => Some(n),
                None => first_where(nodes, |n: XmlNode| is_item_mentioning_cover(n)),
            },
            None => first_where(nodes, |n: XmlNode| is_item_mentioning_cover(n)),
        },
    }
}

pub open spec fn spec_cover_href(nodes: Seq<XmlNode>) -> Option<Seq<char>> {
    match spec_cover_item(nodes) {
        Some(n) => attr(n, "href"@),
        None => None,
    }
}

fn node_is_cover_property_item(n: &XmlNode) -> (r: bool)
    ensures
        r == is_cover_property_item(*n),
{
    if !node_is_named(n, to_chars("item").as_slice()) {
        return false;
    }
    match attribute(n, to_chars("properties").as_slice()) {
        None => false,
        Some(p) => contains_word(to_chars(p.as_str()).as_slice(), to_chars("cover-image").as_slice()),
    }
}

fn node_is_item_with_id(n: &XmlNode, id: &[char]) -> (r: bool)
    ensures
        r == is_item_with_id(*n, id@),
{
    if !node_is_named(n, to_chars("item").as_slice()) {
        return false;
    }
    match attribute(n, to_chars("id").as_slice()) {
        None => false,
        Some(v) => chars_eq(to_chars(v.as_str()).as_slice(), id),
    }
}

fn node_is_item_mentioning_cover(n: &XmlNode) -> (r: bool)
    ensures
        r == is_item_mentioning_cover(*n),
{
    if !node_is_named(n, to_chars("item").as_slice()) {
        return false;
    }
    match attribute(n, to_chars("id").as_slice()) {
        None => false,
        Some(v) => {
            let lowered = to_lower(to_chars(v.as_str()).as_slice());
            contains_chars(lowered.as_slice(), to_chars("cover").as_slice())
        },
    }
}

fn find_cover_property_item(nodes: &Vec<XmlNode>) -> (r: Option<usize>)
    ensures
        match r {
            Some(i) => i < nodes@.len() && first_where(nodes@, |n: XmlNode| is_cover_property_item(n)) == Some(nodes@[i as int]),
            None => first_where(nodes@, |n: XmlNode| is_cover_property_item(n)) is None,
        },
{
    let ghost p = |n: XmlNode| is_cover_property_item(n);
    let mut i: usize = 0;
    while i < nodes.len()
        invariant
            i <= nodes@.len(),
            p == (|n: XmlNode| is_cover_property_item(n)),
            forall|j: int| 0 <= j < i ==> !p(nodes@[j]),
        decreases nodes@.len() - i,
    {
        if node_is_cover_property_item(&nodes[i]) {
            proof { lemma_first_where_found(nodes@, p, i as int); }
            return Some(i);
        }
        i = i + 1;
    }
    proof { lemma_first_where_none(nodes@, p); }
    None
}

fn find_item_with_id(nodes: &Vec<XmlNode>, id: &[char]) -> (r: Option<usize>)
    ensures
        match r {
            Some(i) => i < nodes@.len() && first_where(nodes@, |n: XmlNode| is_item_with_id(n, id@)) == Some(nodes@[i as int]),
            None => first_where(nodes@, |n: XmlNode| is_item_with_id(n, id@)) is None,
        },
{
    let ghost p = |n: XmlNode| is_item_with_id(n, id@);
    let mut i: usize = 0;
    while i < nodes.len()
        invariant
            i <= nodes@.len(),
            p == (|n: XmlNode| is_item_with_id(n, id@)),
            forall|j: int| 0 <= j < i ==> !p(nodes@[j]),
        decreases nodes@.len() - i,
    {
        if node_is_item_with_id(&nodes[i], id) {
            proof { lemma_first_where_found(nodes@, p, i as int); }
            return Some(i);
        }
        i = i + 1;
    }
    proof { lemma_first_where_none(nodes@, p); }
    None
}

fn find_item_mentioning_cover(nodes: &Vec<XmlNode>) -> (r: Option<usize>)
    ensures
        match r {
            Some(i) => i < nodes@.len() && first_where(nodes@, |n: XmlNode| is_item_mentioning_cover(n)) == Some(nodes@[i as int]),
            None => first_where(nodes@, |n: XmlNode| is_item_mentioning_cover(n)) is None,
        },
{
    let ghost p = |n: XmlNode| is_item_mentioning_cover(n);
    let mut i: usize = 0;
    while i < nodes.len()
        invariant
            i <= nodes@.len(),
            p == (|n: XmlNode| is_item_mentioning_cover(n)),
            forall|j: int| 0 <= j < i ==> !p(nodes@[j]),
        decreases nodes@.len() - i,
    {
        if node_is_item_mentioning_cover(&nodes[i]) {
            proof { lemma_first_where_found(nodes@, p, i as int); }
            return Some(i);
        }
        i = i + 1;
    }
    proof { lemma_first_where_none(nodes@, p); }
    None
}

/// The index of the cover item among parsed nodes.
fn cover_item_index(nodes: &Vec<XmlNode>) -> (r: Option<usize>)
    ensures
        match r {
            Some(i) => i < nodes@.len() && spec_cover_item(nodes@) == Some(nodes@[i as int]),
            None => spec_cover_item(nodes@) is None,
        },
{
    if let Some(i) = find_cover_property_item(nodes) {
        return Some(i);
    }
    match meta_of(nodes, to_chars("cover").as_slice()) {
        Some(id) => {
            let idv = to_chars(id.as_str());
            match find_item_with_id(nodes, idv.as_slice()) {
                Some(i) => Some(i),
                None => find_item_mentioning_cover(nodes),
            }
        },
        None => find_item_mentioning_cover(nodes),
    }
}

/// `cover_href`: the `href` of the cover item of a package document.
pub fn cover_href(opf: &str) -> (r: Option<String>)
    ensures
        match r {
            Some(h) => xml_document(opf@) matches Some(nodes) && spec_cover_href(nodes) == Some(h@),
            None => xml_document(opf@) is None || spec_cover_href(xml_document(opf@)->0) is None,
        },
{
    let nodes = match parse_xml(opf) {
        Ok(nodes) => nodes,
        Err(_) => return None,
    };
    cover_href_of_nodes(&nodes)
}

/// The `href` of the cover item among the nodes of a parsed package
/// document.
pub fn cover_href_of_nodes(nodes: &Vec<XmlNode>) -> (r: Option<String>)
    ensures
        opt_view(r) == spec_cover_href(nodes@),
{
    match cover_item_index(nodes) {
        None => None,
        Some(i) => attribute(&nodes[i], to_chars("href").as_slice()),
    }
}


/// A cover image found inside an EPUB.
#[derive(Debug)]
pub struct EmbeddedCover {
    pub bytes: Vec<u8>,
    pub extension: String,
}

/// What an EPUB says of itself.
#[derive(Debug)]
pub struct EpubData {
    pub metadata: Metadata,
    pub cover: Option<EmbeddedCover>,
}

/// The contents of entry `name`, when it opens and reads.
pub open spec fn spec_zip_bytes(entries: Seq<crate::zipfile::ZipEntryModel>, name: Seq<char>) -> Option<Seq<u8>> {
    match entry_named(entries, name) {
        Some(e) => if e.info is Some {
            e.data
        } else {
            None
        },
        None => None,
    }
}

/// The text of entry `name`, when it opens, reads and is UTF-8.
pub open spec fn spec_zip_text(entries: Seq<crate::zipfile::ZipEntryModel>, name: Seq<char>) -> Option<Seq<char>> {
    match spec_zip_bytes(entries, name) {
        Some(d) => if vstd::utf8::valid_utf8(d) {
            Some(vstd::utf8::decode_utf8(d))
        } else {
            None
        },
        None => None,
    }
}

/// The package path and package text that an EPUB's container leads to.
pub open spec fn epub_package(bytes: Seq<u8>) -> Option<(Seq<char>, Seq<char>)> {
    match zip_parse(bytes) {
        None => None,
        Some(entries) => match spec_zip_text(entries, "META-INF/container.xml"@) {
            None => None,
            Some(c) => match xml_document(c) {
                None => None,
                Some(cnodes) => match spec_rootfile(cnodes) {
                    None => None,
                    Some(path) => match spec_zip_text(entries, path) {
                        None => None,
                        Some(opf) => Some((path, opf)),
                    },
                },
            },
        },
    }
}

/// The cover that an EPUB embeds, given its package's path and nodes.
pub open spec fn cover_found(c: Option<EmbeddedCover>, entries: Seq<crate::zipfile::ZipEntryModel>, path: Seq<char>, nodes: Seq<XmlNode>) -> bool {
    match spec_cover_href(nodes) {
        None => c is None,
        Some(href) => match spec_zip_bytes(entries, spec_walk_join(path, replace_char(href, '\\', '/'))) {
            None => c is None,
            Some(b) => c matches Some(cover) && cover.bytes@ == b && cover.extension@
                == spec_cover_extension(href, b),
        },
    }
}

fn read_zip_bytes(archive: &mut ZipArchive<Cursor<Vec<u8>>>, name: &str) -> (r: Option<Vec<u8>>)
    ensures
        zip_entries(*final(archive)) == zip_entries(*old(archive)),
        match r {
            Some(b) => spec_zip_bytes(zip_entries(*old(archive)), name@) == Some(b@),
            None => spec_zip_bytes(zip_entries(*old(archive)), name@) is None,
        },
{
    match zip_read_named(archive, name) {
        Ok(bytes) => Some(bytes),
        Err(_) => None,
    }
}

fn read_zip_text(archive: &mut ZipArchive<Cursor<Vec<u8>>>, name: &str) -> (r: Option<String>)
    ensures
        zip_entries(*final(archive)) == zip_entries(*old(archive)),
        match r {
            Some(t) => spec_zip_text(zip_entries(*old(archive)), name@) == Some(t@),
            None => spec_zip_text(zip_entries(*old(archive)), name@) is None,
        },
{
    match read_zip_bytes(archive, name) {
        Some(bytes) => utf8_string_of(bytes),
        None => None,
    }
}

fn utf8_string_of(bytes: Vec<u8>) -> (r: Option<String>)
    ensures
        match r {
            Some(t) => vstd::utf8::valid_utf8(bytes@) && t@ == vstd::utf8::decode_utf8(bytes@),
            None => !vstd::utf8::valid_utf8(bytes@),
        },
{
    crate::text::utf8_string(bytes)
}

/// `parse_epub`: the metadata and embedded cover of the EPUB in `bytes`.
/// `None` when the archive, its container or its package cannot be read.
pub fn parse_epub(bytes: Vec<u8>) -> (r: Option<EpubData>)
    ensures
        r is Some <==> (epub_package(bytes@) matches Some((path, opf)) && xml_document(opf) is Some),
        r matches Some(d) ==> (epub_package(bytes@) matches Some((path, opf)) && xml_document(opf) matches Some(nodes)
            && metadata_from(d.metadata, nodes) && cover_found(d.cover, zip_parse(bytes@)->0, path, nodes)),
{
    let ghost input = bytes@;
    let mut archive = match zip_open(bytes) {
        Ok(a) => a,
        Err(_) => return None,
    };
    let ghost entries = zip_entries(archive);
    let container = match read_zip_text(&mut archive, "META-INF/container.xml") {
        Some(t) => t,
        None => return None,
    };
    let cnodes = match parse_xml(container.as_str()) {
        Ok(n) => n,
        Err(_) => return None,
    };
    let path = match crate::xml::find_named(&cnodes, to_chars("rootfile").as_slice()) {
        None => return None,
        Some(i) => match attribute(&cnodes[i], to_chars("full-path").as_slice()) {
            None => return None,
            Some(p) => p,
        },
    };
    assert(spec_rootfile(cnodes@) == Some(path@));
    let opf = match read_zip_text(&mut archive, path.as_str()) {
        Some(t) => t,
        None => return None,
    };
    let metadata = match parse_metadata_xml(opf.as_str()) {
        Some(m) => m,
        None => return None,
    };
    let ghost nodes = xml_document(opf@)->0;
    let cover = match cover_href(opf.as_str()) {
        None => None,
        Some(href) => {
            let entry = zip_join(path.as_str(), href.as_str());
            match read_zip_bytes(&mut archive, entry.as_str()) {
                None => None,
                Some(cover_bytes) => {
                    let extension = cover_extension(href.as_str(), cover_bytes.as_slice());
                    Some(EmbeddedCover { bytes: cover_bytes, extension })
                },
            }
        },
    };
    Some(EpubData { metadata, cover })
}


/// The bytes digested to name a cached cover: the book's path, then, when
/// the file's metadata could be read, its length and, when known, its
/// modification time in nanoseconds, each little-endian.
pub open spec fn cover_key_bytes(path: Seq<u8>, file_info: Option<(u64, Option<u128>)>) -> Seq<u8> {
    match file_info {
        None => path,
        Some((len, modified)) => match modified {
            None => path + crate::digest::le_bytes(len as nat, 8),
            Some(nanos) => path + crate::digest::le_bytes(len as nat, 8) + crate::digest::le_bytes(
                nanos as nat,
                16,
            ),
        },
    }
}

/// The file name under which an embedded cover is cached: the hex SHA-256
/// of the cover key, a dot, and the cover's extension.
pub fn cover_cache_file_name(book_path: &str, file_info: Option<(u64, Option<u128>)>, extension: &str) -> (r: String)
    ensures
        r@ == crate::digest::hex(crate::digest::sha256_of(cover_key_bytes(book_path.spec_bytes(), file_info))) + seq!['.'] + extension@,
{
    let mut key: Vec<u8> = Vec::new();
    key.extend_from_slice(book_path.as_bytes());
    match file_info {
        None => {},
        Some((len, modified)) => {
            let lb = crate::digest::u64_le_bytes(len);
            key.extend_from_slice(lb.as_slice());
            match modified {
                None => {},
                Some(nanos) => {
                    let nb = crate::digest::u128_le_bytes(nanos);
                    key.extend_from_slice(nb.as_slice());
                },
            }
        },
    }
    assert(key@ =~= cover_key_bytes(book_path.spec_bytes(), file_info));
    let d = crate::digest::sha256(key.as_slice());
    let mut name = to_chars(crate::digest::hex_string(d.as_slice()).as_str());
    name.push('.');
    name.extend_from_slice(to_chars(extension).as_slice());
    string_of(name.as_slice())
}

/// The title, authors and series that a book takes from its file and
/// folder names when its metadata lacks them: the file's cleaned stem (or
/// `Untitled`), the first folder below the library root, and the folder
/// that holds the book's folder when it lies at least three deep.
pub open spec fn completed(new: Metadata, old: Metadata, stem: Option<Seq<char>>, folders: Seq<Seq<char>>) -> bool {
    &&& new.title@ == (if old.title@.len() == 0 {
        spec_clean_title(match stem {
            Some(s) => s,
            None => "Untitled"@,
        })
    } else {
        old.title@
    })
    &&& strs(new.authors@) == (if old.authors@.len() == 0 && folders.len() > 0 {
        seq![folders[0]]
    } else {
        strs(old.authors@)
    })
    &&& opt_view(new.series) == (if old.series is None && folders.len() >= 3 {
        Some(folders[folders.len() - 2])
    } else {
        opt_view(old.series)
    })
    &&& opt_view(new.subtitle) == opt_view(old.subtitle)
    &&& opt_view(new.description) == opt_view(old.description)
    &&& opt_view(new.published) == opt_view(old.published)
    &&& strs(new.tags@) == strs(old.tags@)
    &&& opt_view(new.identifier) == opt_view(old.identifier)
    &&& opt_view(new.series_index_text) == opt_view(old.series_index_text)
}

/// Fills the title, authors and series that `metadata` lacks from the
/// book's file stem and the folders between the library root and the book.
pub fn complete_metadata(metadata: &mut Metadata, file_stem: Option<&str>, folders: &Vec<String>)
    ensures
        completed(*final(metadata), *old(metadata), match file_stem {
            Some(s) => Some(s@),
            None => None,
        }, strs(folders@)),
{
    if metadata.title.as_str().is_empty() {
        metadata.title = match file_stem {
            Some(s) => clean_title(s),
            None => clean_title("Untitled"),
        };
    }
    if metadata.authors.len() == 0 && folders.len() > 0 {
        let mut authors: Vec<String> = Vec::new();
        authors.push(folders[0].clone());
        assert(strs(authors@) =~= seq![strs(folders@)[0]]);
        metadata.authors = authors;
    }
    if metadata.series.is_none() && folders.len() >= 3 {
        metadata.series = Some(folders[folders.len() - 2].clone());
    }
}

/// The warnings that scanning one book raises.
pub fn scan_warnings(primary: &str, metadata_found: bool, cover_found: bool) -> (r: Vec<String>)
    ensures
        strs(r@) == (if metadata_found {
            Seq::<Seq<char>>::empty()
        } else {
            seq!["No readable metadata found: "@ + primary@]
        }) + (if cover_found {
            Seq::<Seq<char>>::empty()
        } else {
            seq!["No cover found: "@ + primary@]
        }),
{
    let mut r: Vec<String> = Vec::new();
    assert(strs(r@) =~= Seq::<Seq<char>>::empty());
    if !metadata_found {
        let mut m = to_chars("No readable metadata found: ");
        m.extend_from_slice(to_chars(primary).as_slice());
        let w = string_of(m.as_slice());
        assert(w@ =~= "No readable metadata found: "@ + primary@);
        proof {
            lemma_strs_push(r@, w);
        }
        r.push(w);
    }
    if !cover_found {
        let mut m = to_chars("No cover found: ");
        m.extend_from_slice(to_chars(primary).as_slice());
        let w = string_of(m.as_slice());
        assert(w@ =~= "No cover found: "@ + primary@);
        proof {
            lemma_strs_push(r@, w);
        }
        r.push(w);
    }
    assert(strs(r@) =~= (if metadata_found {
        Seq::<Seq<char>>::empty()
    } else {
        seq!["No readable metadata found: "@ + primary@]
    }) + (if cover_found {
        Seq::<Seq<char>>::empty()
    } else {
        seq!["No cover found: "@ + primary@]
    }));
    r
}

/// Whether a lower-cased extension marks a book file.
pub open spec fn spec_is_book_extension(ext: Seq<char>) -> bool {
    ext == "epub"@ || ext == "pdf"@
}

/// Whether a lower-cased extension is that of a book the scanner indexes.
pub fn is_book_extension(ext: &str) -> (r: bool)
    ensures
        r == spec_is_book_extension(ext@),
{
    let e = to_chars(ext);
    chars_eq(e.as_slice(), to_chars("epub").as_slice()) || chars_eq(e.as_slice(), to_chars("pdf").as_slice())
}

/// The preference order of a book's formats: EPUB, then PDF, then others.
pub open spec fn media_rank(ext: Seq<char>) -> int {
    if ext == "epub"@ {
        0
    } else if ext == "pdf"@ {
        1
    } else {
        2
    }
}

/// The positions of the files with rank `r`, in order.
pub open spec fn positions_with_rank(exts: Seq<Seq<char>>, r: int) -> Seq<usize>
    decreases exts.len(),
{
    if exts.len() == 0 {
        Seq::empty()
    } else {
        let rest = positions_with_rank(exts.drop_last(), r);
        if media_rank(exts.last()) == r {
            rest.push((exts.len() - 1) as usize)
        } else {
            rest
        }
    }
}

/// The stable order of a folder's book files by format preference.
pub open spec fn spec_media_order(exts: Seq<Seq<char>>) -> Seq<usize> {
    positions_with_rank(exts, 0) + positions_with_rank(exts, 1) + positions_with_rank(exts, 2)
}

fn rank_of(ext: &String) -> (r: u8)
    ensures
        r as int == media_rank(ext@),
{
    let e = to_chars(ext.as_str());
    if chars_eq(e.as_slice(), to_chars("epub").as_slice()) {
        0
    } else if chars_eq(e.as_slice(), to_chars("pdf").as_slice()) {
        1
    } else {
        2
    }
}

fn append_rank(out: &mut Vec<usize>, exts: &Vec<String>, r: u8)
    requires
        r <= 2,
    ensures
        final(out)@ == old(out)@ + positions_with_rank(strs(exts@), r as int),
{
    let ghost start = out@;
    let mut i: usize = 0;
    assert(strs(exts@).take(0) =~= Seq::<Seq<char>>::empty());
    assert(out@ =~= start + positions_with_rank(strs(exts@).take(0), r as int));
    while i < exts.len()
        invariant
            i <= exts@.len(),
            out@ == start + positions_with_rank(strs(exts@).take(i as int), r as int),
        decreases exts@.len() - i,
    {
        assert(strs(exts@).take(i + 1).drop_last() =~= strs(exts@).take(i as int));
        assert(strs(exts@).take(i + 1).last() == exts@[i as int]@);
        if rank_of(&exts[i]) == r {
            out.push(i);
        }
        i = i + 1;
        assert(out@ =~= start + positions_with_rank(strs(exts@).take(i as int), r as int));
    }
    assert(strs(exts@).take(exts@.len() as int) =~= strs(exts@));
}

/// The order in which a folder's book files are considered, given their
/// lower-cased extensions: positions of EPUBs, then PDFs, then the rest,
/// each in their listed order. The first is the book's primary file.
pub fn order_media(exts: &Vec<String>) -> (r: Vec<usize>)
    ensures
        r@ == spec_media_order(strs(exts@)),
{
    let mut out: Vec<usize> = Vec::new();
    append_rank(&mut out, exts, 0);
    append_rank(&mut out, exts, 1);
    append_rank(&mut out, exts, 2);
    assert(out@ =~= spec_media_order(strs(exts@)));
    out
}

/// A book file as the scanner lists it: its lower-cased extension and
/// its path text.
pub open spec fn file_view(f: (String, String)) -> (Seq<char>, Seq<char>) {
    (f.0@, f.1@)
}

pub open spec fn file_views(files: Seq<(String, String)>) -> Seq<(Seq<char>, Seq<char>)> {
    files.map_values(|f: (String, String)| file_view(f))
}

/// The lower-cased extensions of a folder's book files.
pub open spec fn file_exts(files: Seq<(String, String)>) -> Seq<Seq<char>> {
    files.map_values(|f: (String, String)| f.0@)
}

/// The files of a book, given the book files of its folder: the position
/// of the primary file, the book's format (the primary file's extension),
/// and the other files in the order they are considered.
pub open spec fn spec_book_files(files: Seq<(String, String)>) -> Option<(usize, Seq<char>, Seq<(Seq<char>, Seq<char>)>)> {
    let order = spec_media_order(file_exts(files));
    if files.len() == 0 {
        None
    } else {
        Some((
            order[0],
            files[order[0] as int].0@,
            order.skip(1).map_values(|i: usize| file_view(files[i as int])),
        ))
    }
}

proof fn lemma_positions_in_range(exts: Seq<Seq<char>>, r: int)
    requires
        exts.len() <= usize::MAX,
    ensures
        forall|j: int| 0 <= j < positions_with_rank(exts, r).len() ==> (#[trigger] positions_with_rank(exts, r)[j]) < exts.len(),
        exts.len() > 0 && media_rank(exts.last()) == r ==> positions_with_rank(exts, r).len() > 0,
    decreases exts.len(),
{
    if exts.len() > 0 {
        lemma_positions_in_range(exts.drop_last(), r);
        let rest = positions_with_rank(exts.drop_last(), r);
        if media_rank(exts.last()) == r {
            let last = (exts.len() - 1) as usize;
            assert(last < exts.len());
            assert forall|j: int| 0 <= j < rest.push(last).len() implies #[trigger] rest.push(last)[j] < exts.len() by {
                if j < rest.len() {
                    assert(rest.push(last)[j] == rest[j]);
                }
            }
        }
    }
}

proof fn lemma_media_order_in_range(exts: Seq<Seq<char>>)
    requires
        exts.len() <= usize::MAX,
    ensures
        forall|j: int| 0 <= j < spec_media_order(exts).len() ==> (#[trigger] spec_media_order(exts)[j]) < exts.len(),
        exts.len() > 0 ==> spec_media_order(exts).len() > 0,
{
    lemma_positions_in_range(exts, 0);
    lemma_positions_in_range(exts, 1);
    lemma_positions_in_range(exts, 2);
    let a = positions_with_rank(exts, 0);
    let b = positions_with_rank(exts, 1);
    let c = positions_with_rank(exts, 2);
    assert forall|j: int| 0 <= j < (a + b + c).len() implies #[trigger] (a + b + c)[j] < exts.len() by {
        if j < a.len() {
            assert((a + b + c)[j] == a[j]);
        } else if j < a.len() + b.len() {
            assert((a + b + c)[j] == b[j - a.len()]);
        } else {
            assert((a + b + c)[j] == c[j - a.len() - b.len()]);
        }
    }
}

/// `scan_library_with_cache`'s choice among a folder's book files, each
/// given as its lower-cased extension and its path text: the primary file
/// comes first in `order_media`'s order and gives the book's format; the
/// others become the book's alternate files, in that order. `None` for a
/// folder without book files.
pub fn book_files(files: &Vec<(String, String)>) -> (r: Option<(usize, String, Vec<(String, String)>)>)
    ensures
        match r {
            Some((i, format, alternates)) => spec_book_files(files@) == Some((i, format@, file_views(alternates@))),
            None => spec_book_files(files@) is None,
        },
{
    let mut exts: Vec<String> = Vec::new();
    let mut k: usize = 0;
    while k < files.len()
        invariant
            k <= files@.len(),
            strs(exts@) == file_exts(files@).take(k as int),
        decreases files@.len() - k,
    {
        let e = files[k].0.clone();
        assert(e@ == file_exts(files@)[k as int]);
        proof {
            lemma_strs_push(exts@, e);
        }
        exts.push(e);
        k = k + 1;
        assert(strs(exts@) =~= file_exts(files@).take(k as int));
    }
    assert(file_exts(files@).take(files@.len() as int) =~= file_exts(files@));
    let order = order_media(&exts);
    let ghost spec_order = spec_media_order(file_exts(files@));
    assert(order@ == spec_order);
    proof {
        lemma_media_order_in_range(file_exts(files@));
    }
    if files.len() == 0 {
        return None;
    }
    let primary = order[0];
    let format = files[primary].0.clone();
    let mut alternates: Vec<(String, String)> = Vec::new();
    let mut j: usize = 1;
    while j < order.len()
        invariant
            1 <= j <= order@.len(),
            order@ == spec_order,
            forall|t: int| 0 <= t < order@.len() ==> (#[trigger] order@[t]) < files@.len(),
            file_views(alternates@) == spec_order.skip(1).take(j - 1).map_values(
                |i: usize| file_view(files@[i as int]),
            ),
        decreases order@.len() - j,
    {
        let f = order[j];
        assert(order@[j as int] < files@.len());
        let item = (files[f].0.clone(), files[f].1.clone());
        assert(file_view(item) == file_view(files@[f as int]));
        assert(spec_order.skip(1)[j - 1] == f);
        let ghost before = alternates@;
        alternates.push(item);
        assert forall|t: int| 0 <= t < before.len() + 1 implies #[trigger] file_views(alternates@)[t] == file_views(before).push(file_view(item))[t] by {
            if t < before.len() {
                assert(alternates@[t] == before[t]);
            }
        }
        assert(file_views(alternates@) =~= file_views(before).push(file_view(item)));
        j = j + 1;
        assert(file_views(alternates@) =~= spec_order.skip(1).take(j - 1).map_values(
            |i: usize| file_view(files@[i as int]),
        ));
    }
    assert(spec_order.skip(1).take(order@.len() - 1) =~= spec_order.skip(1));
    Some((primary, format, alternates))
}

/// The package documents looked for beside a book, in order.
pub fn metadata_file_names() -> (r: Vec<String>)
    ensures
        strs(r@) == seq!["metadata.opf"@, "content.opf"@],
{
    let mut r: Vec<String> = Vec::new();
    r.push("metadata.opf".to_owned());
    r.push("content.opf".to_owned());
    assert(strs(r@) =~= seq!["metadata.opf"@, "content.opf"@]);
    r
}

/// The image files taken as a book's cover when present beside it, in order.
pub fn cover_file_names() -> (r: Vec<String>)
    ensures
        strs(r@) == seq!["cover.jpg"@, "cover.jpeg"@, "cover.png"@, "folder.jpg"@, "folder.jpeg"@, "poster.jpg"@],
{
    let mut r: Vec<String> = Vec::new();
    r.push("cover.jpg".to_owned());
    r.push("cover.jpeg".to_owned());
    r.push("cover.png".to_owned());
    r.push("folder.jpg".to_owned());
    r.push("folder.jpeg".to_owned());
    r.push("poster.jpg".to_owned());
    assert(strs(r@) =~= seq!["cover.jpg"@, "cover.jpeg"@, "cover.png"@, "folder.jpg"@, "folder.jpeg"@, "poster.jpg"@]);
    r
}

} // verus!
