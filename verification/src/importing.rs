//! What an EPUB says of itself when it is imported, with the download's
//! catalogue record filling what the package leaves out.

use crate::downloads::{resolve_epub_path, safe_name, spec_safe_name, spec_xml, xml};
use crate::epub_validation::{
    package_invalid, read_validated_entry, same_error, spec_read_entry, spec_validate,
    validate_new_epub, MAX_RESOURCE_BYTES, MAX_XML_BYTES,
};
use crate::error::{bad_request, AppError, ErrorView};
use crate::models::CatalogBookDto;
use crate::opf::{contains_word, element_texts, has_text, has_word, lemma_element_texts_first, lemma_element_texts_none, meta_content, meta_of, texts_of};
use crate::paths::spec_walk_join;
use crate::scanner::{clone_opt, clone_strings, opt_view, strs};
use crate::text::{
    chars_eq, contains_chars, contains_seq, dec_nat, ends_with, ends_with_chars, eq_ignore_ascii_case,
    eq_ignore_case, is_ws, lemma_trim_end_take, lemma_trim_start_skip, string_of, to_chars, trim,
    trim_chars, trim_end, trim_start, u64_digits, utf8_string,
};
use crate::xml::{
    attr, attribute, first_where, is_named, lemma_first_where_found, lemma_first_where_none,
    node_is_named, parse_xml, xml_document, xml_parse_error, XmlNode,
};
use vstd::prelude::*;

verus! {

/// What the importer keeps of an EPUB.
#[derive(Debug)]
pub struct ImportedMetadata {
    pub title: String,
    pub authors: Vec<String>,
    pub description: Option<String>,
    pub language: String,
    pub published: Option<String>,
    pub subjects: Vec<String>,
    pub identifier: String,
    pub series: Option<String>,
    /// The `calibre:series_index` value as written; the caller reads it
    /// as a number.
    pub series_index: Option<String>,
    /// The embedded cover: its file extension and its bytes.
    pub cover: Option<(String, Vec<u8>)>,
}

/// The first of a list of texts.
pub open spec fn first_of(v: Seq<Seq<char>>) -> Option<Seq<char>> {
    if v.len() > 0 {
        Some(v[0])
    } else {
        None
    }
}

pub open spec fn or_text(a: Option<Seq<char>>, b: Seq<char>) -> Seq<char> {
    match a {
        Some(x) => x,
        None => b,
    }
}

pub open spec fn or_opt(a: Option<Seq<char>>, b: Option<Seq<char>>) -> Option<Seq<char>> {
    match a {
        Some(x) => Some(x),
        None => b,
    }
}

pub open spec fn or_list(a: Seq<Seq<char>>, b: Seq<Seq<char>>) -> Seq<Seq<char>> {
    if a.len() > 0 {
        a
    } else {
        b
    }
}

/// A manifest item that holds the cover: it has the `cover-image`
/// property, or its id is the one that `<meta name="cover">` names.
pub open spec fn is_import_cover_item(n: XmlNode, cover_id: Option<Seq<char>>) -> bool {
    is_named(n, "item"@) && ((attr(n, "properties"@) matches Some(p) && has_word(
        p,
        "cover-image"@,
    )) || (cover_id matches Some(w) && attr(n, "id"@) == Some(w)))
}

pub open spec fn import_cover_item(nodes: Seq<XmlNode>) -> Option<XmlNode> {
    first_where(nodes, |n: XmlNode| is_import_cover_item(n, meta_content(nodes, "cover"@)))
}

/// The media type of the cover item, `image/jpeg` when it declares none.
pub open spec fn cover_media(nodes: Seq<XmlNode>) -> Seq<char> {
    match import_cover_item(nodes) {
        Some(n) => match attr(n, "media-type"@) {
            Some(m) => m,
            None => "image/jpeg"@,
        },
        None => "image/jpeg"@,
    }
}

/// The file extension for a cover of the given media type.
pub open spec fn media_extension(media: Seq<char>) -> Seq<char> {
    if contains_seq(media, "png"@) {
        "png"@
    } else if contains_seq(media, "webp"@) {
        "webp"@
    } else {
        "jpg"@
    }
}

/// The archive entry of the cover, resolved against the package's path.
pub open spec fn import_cover_path(nodes: Seq<XmlNode>, opf: Seq<char>) -> Option<Seq<char>> {
    match import_cover_item(nodes) {
        Some(n) => match attr(n, "href"@) {
            Some(h) => Some(spec_walk_join(opf, h)),
            None => None,
        },
        None => None,
    }
}

/// Reading the cover: its bytes; nothing when the entry is missing or
/// beyond the resource limit; the error when reading it fails.
pub open spec fn import_cover_read(bytes: Seq<u8>, nodes: Seq<XmlNode>, opf: Seq<char>) -> Result<
    Option<Seq<u8>>,
    ErrorView,
> {
    match import_cover_path(nodes, opf) {
        None => Ok(None),
        Some(p) => match spec_read_entry(bytes, p, MAX_RESOURCE_BYTES as usize) {
            Ok(d) => Ok(Some(d)),
            Err(e) => if e is Io {
                Err(e)
            } else {
                Ok(None)
            },
        },
    }
}

/// The refusal of a package document that does not parse: the parser's
/// message after a fixed prefix.
pub open spec fn package_metadata_invalid(text: Seq<char>) -> ErrorView {
    ErrorView::BadRequest("Invalid EPUB package metadata: "@ + xml_parse_error(text))
}

/// The package of an EPUB about to be imported: it must validate, and its
/// package document must read as UTF-8 text and parse.
pub open spec fn import_package(bytes: Seq<u8>) -> Result<(Seq<char>, Seq<XmlNode>), ErrorView> {
    match spec_validate(bytes) {
        Err(e) => Err(e),
        Ok((opf, _)) => match spec_read_entry(bytes, opf, MAX_XML_BYTES) {
            Err(e) => Err(e),
            Ok(d) => if !vstd::utf8::valid_utf8(d) {
                Err(package_invalid())
            } else {
                match xml_document(vstd::utf8::decode_utf8(d)) {
                    None => Err(package_metadata_invalid(vstd::utf8::decode_utf8(d))),
                    Some(nodes) => Ok((opf, nodes)),
                }
            },
        },
    }
}

/// The metadata read from a package, each field taken from the catalogue
/// record when the package has none.
pub open spec fn imported_from(m: ImportedMetadata, nodes: Seq<XmlNode>, fallback: CatalogBookDto) -> bool {
    &&& m.title@ == or_text(first_of(element_texts(nodes, "title"@)), fallback.title@)
    &&& strs(m.authors@) == or_list(element_texts(nodes, "creator"@), strs(fallback.authors@))
    &&& opt_view(m.description) == or_opt(
        first_of(element_texts(nodes, "description"@)),
        opt_view(fallback.description),
    )
    &&& m.language@ == or_text(
        or_opt(first_of(element_texts(nodes, "language"@)), opt_view(fallback.language)),
        "en"@,
    )
    &&& opt_view(m.published) == or_opt(
        first_of(element_texts(nodes, "date"@)),
        opt_view(fallback.published),
    )
    &&& strs(m.subjects@) == or_list(element_texts(nodes, "subject"@), strs(fallback.subjects@))
    &&& m.identifier@ == or_text(
        first_of(element_texts(nodes, "identifier"@)),
        fallback.provider@ + seq![':'] + fallback.provider_id@,
    )
    &&& opt_view(m.series) == meta_content(nodes, "calibre:series"@)
    &&& opt_view(m.series_index) == meta_content(nodes, "calibre:series_index"@)
}

/// What the package says wins over the catalogue record: where an element
/// named `name` has non-blank text, the trimmed text of the first such
/// element is the imported title, description, language, publication date
/// or identifier, whatever the record holds.
pub proof fn lemma_package_text_wins(m: ImportedMetadata, nodes: Seq<XmlNode>, fallback: CatalogBookDto, name: Seq<char>, k: int)
    requires
        imported_from(m, nodes, fallback),
        0 <= k < nodes.len(),
        is_named(nodes[k], name),
        nodes[k].text is Some,
        trim(nodes[k].text->0@).len() > 0,
        forall|j: int|
            0 <= j < k ==> !(is_named(#[trigger] nodes[j], name) && nodes[j].text is Some && trim(nodes[j].text->0@).len() > 0),
    ensures
        name == "title"@ ==> m.title@ == trim(nodes[k].text->0@),
        name == "description"@ ==> opt_view(m.description) == Some(trim(nodes[k].text->0@)),
        name == "language"@ ==> m.language@ == trim(nodes[k].text->0@),
        name == "date"@ ==> opt_view(m.published) == Some(trim(nodes[k].text->0@)),
        name == "identifier"@ ==> m.identifier@ == trim(nodes[k].text->0@),
{
    assert forall|j: int| 0 <= j < k implies !has_text(#[trigger] nodes[j], name) by {}
    lemma_element_texts_first(nodes, name, k);
}

/// Where no element named `description` has non-blank text, the imported
/// description is the catalogue record's.
pub proof fn lemma_record_description_fills_gap(m: ImportedMetadata, nodes: Seq<XmlNode>, fallback: CatalogBookDto)
    requires
        imported_from(m, nodes, fallback),
        forall|j: int|
            0 <= j < nodes.len() ==> !(is_named(#[trigger] nodes[j], "description"@) && nodes[j].text is Some
                && trim(nodes[j].text->0@).len() > 0),
    ensures
        opt_view(m.description) == opt_view(fallback.description),
{
    assert forall|j: int| 0 <= j < nodes.len() implies !has_text(#[trigger] nodes[j], "description"@) by {}
    lemma_element_texts_none(nodes, "description"@);
}

/// The cover kept: the bytes read, under the extension of its media type.
pub open spec fn cover_taken(c: Option<(String, Vec<u8>)>, read: Option<Seq<u8>>, nodes: Seq<XmlNode>) -> bool {
    match read {
        None => c is None,
        Some(d) => c matches Some((ext, b)) && b@ == d && ext@ == media_extension(cover_media(nodes)),
    }
}

/// The first trimmed, non-empty text of the elements named `name`.
fn first_text(nodes: &Vec<XmlNode>, name: &str) -> (r: Option<String>)
    ensures
        opt_view(r) == first_of(element_texts(nodes@, name@)),
{
    let v = texts_of(nodes, to_chars(name).as_slice());
    if v.len() > 0 {
        assert(v@.map_values(|s: String| s@)[0] == v@[0]@);
        Some(v[0].clone())
    } else {
        None
    }
}

/// The texts of the elements named `name`, or the fallback's when there
/// are none.
fn texts_or(nodes: &Vec<XmlNode>, name: &str, fallback: &Vec<String>) -> (r: Vec<String>)
    ensures
        strs(r@) == or_list(element_texts(nodes@, name@), strs(fallback@)),
{
    let v = texts_of(nodes, to_chars(name).as_slice());
    if v.len() > 0 {
        v
    } else {
        clone_strings(fallback)
    }
}

fn node_is_import_cover_item(n: &XmlNode, cover_id: &Option<String>) -> (r: bool)
    ensures
        r == is_import_cover_item(*n, opt_view(*cover_id)),
{
    if !node_is_named(n, to_chars("item").as_slice()) {
        return false;
    }
    let by_property = match attribute(n, to_chars("properties").as_slice()) {
        None => false,
        Some(p) => contains_word(to_chars(p.as_str()).as_slice(), to_chars("cover-image").as_slice()),
    };
    if by_property {
        return true;
    }
    match cover_id {
        None => false,
        Some(wanted) => match attribute(n, to_chars("id").as_slice()) {
            None => false,
            Some(actual) => chars_eq(to_chars(actual.as_str()).as_slice(), to_chars(wanted.as_str()).as_slice()),
        },
    }
}

fn find_import_cover_item(nodes: &Vec<XmlNode>, cover_id: &Option<String>) -> (r: Option<usize>)
    ensures
        match r {
            Some(i) => i < nodes@.len() && first_where(
                nodes@,
                |n: XmlNode| is_import_cover_item(n, opt_view(*cover_id)),
            ) == Some(nodes@[i as int]),
            None => first_where(nodes@, |n: XmlNode| is_import_cover_item(n, opt_view(*cover_id)))
                is None,
        },
{
    let ghost p = |n: XmlNode| is_import_cover_item(n, opt_view(*cover_id));
    let mut i: usize = 0;
    while i < nodes.len()
        invariant
            i <= nodes@.len(),
            p == (|n: XmlNode| is_import_cover_item(n, opt_view(*cover_id))),
            forall|j: int| 0 <= j < i ==> !p(nodes@[j]),
        decreases nodes@.len() - i,
    {
        if node_is_import_cover_item(&nodes[i], cover_id) {
            proof {
                lemma_first_where_found(nodes@, p, i as int);
            }
            return Some(i);
        }
        i = i + 1;
    }
    proof {
        lemma_first_where_none(nodes@, p);
    }
    None
}

fn extension_for_media(media: &str) -> (r: &'static str)
    ensures
        r@ == media_extension(media@),
{
    let m = to_chars(media);
    if contains_chars(m.as_slice(), to_chars("png").as_slice()) {
        "png"
    } else if contains_chars(m.as_slice(), to_chars("webp").as_slice()) {
        "webp"
    } else {
        "jpg"
    }
}

/// Where the cover of a parsed package document is, resolved against the
/// package document's path `opf_path`, and its declared media type.
pub fn import_cover_target(nodes: &Vec<XmlNode>, opf_path: &str) -> (r: (Option<String>, String))
    ensures
        opt_view(r.0) == import_cover_path(nodes@, opf_path@),
        r.1@ == cover_media(nodes@),
{
    let cover_id = meta_of(nodes, to_chars("cover").as_slice());
    let cover_item = find_import_cover_item(nodes, &cover_id);
    let mut cover_path: Option<String> = None;
    let mut media: String = "image/jpeg".to_string();
    match cover_item {
        None => {},
        Some(i) => {
            match attribute(&nodes[i], to_chars("href").as_slice()) {
                None => {},
                Some(href) => {
                    cover_path = Some(resolve_epub_path(opf_path, href.as_str()));
                },
            }
            match attribute(&nodes[i], to_chars("media-type").as_slice()) {
                None => {},
                Some(m) => {
                    media = m;
                },
            }
        },
    }
    assert(opt_view(cover_path) == import_cover_path(nodes@, opf_path@));
    assert(media@ == cover_media(nodes@));
    (cover_path, media)
}

/// The metadata of an imported book: what the nodes of its parsed package
/// document say, each field taken from `fallback`, the catalogue record,
/// where they say nothing, with `cover` as the cover kept.
pub fn imported_metadata(nodes: &Vec<XmlNode>, fallback: &CatalogBookDto, cover: Option<(String, Vec<u8>)>) -> (m: ImportedMetadata)
    ensures
        imported_from(m, nodes@, *fallback),
        m.cover == cover,
{
    let title = match first_text(nodes, "title") {
        Some(t) => t,
        None => fallback.title.clone(),
    };
    let authors = texts_or(nodes, "creator", &fallback.authors);
    let description = match first_text(nodes, "description") {
        Some(t) => Some(t),
        None => clone_opt(&fallback.description),
    };
    let language = match first_text(nodes, "language") {
        Some(t) => t,
        None => match &fallback.language {
            Some(l) => l.clone(),
            None => "en".to_string(),
        },
    };
    let published = match first_text(nodes, "date") {
        Some(t) => Some(t),
        None => clone_opt(&fallback.published),
    };
    let subjects = texts_or(nodes, "subject", &fallback.subjects);
    let identifier = match first_text(nodes, "identifier") {
        Some(t) => t,
        None => {
            let mut v = to_chars(fallback.provider.as_str());
            v.push(':');
            v.extend_from_slice(to_chars(fallback.provider_id.as_str()).as_slice());
            string_of(v.as_slice())
        },
    };
    let series = meta_of(nodes, to_chars("calibre:series").as_slice());
    let series_index = meta_of(nodes, to_chars("calibre:series_index").as_slice());
    let m = ImportedMetadata {
        title,
        authors,
        description,
        language,
        published,
        subjects,
        identifier,
        series,
        series_index,
        cover,
    };
    assert(m.title@ == or_text(first_of(element_texts(nodes@, "title"@)), fallback.title@));
    assert(strs(m.authors@) == or_list(element_texts(nodes@, "creator"@), strs(fallback.authors@)));
    assert(m.language@ == or_text(
        or_opt(first_of(element_texts(nodes@, "language"@)), opt_view(fallback.language)),
        "en"@,
    ));
    assert(m.identifier@ == or_text(
        first_of(element_texts(nodes@, "identifier"@)),
        fallback.provider@ + seq![':'] + fallback.provider_id@,
    ));
    m
}

/// `inspect_epub`: validates the EPUB in `bytes` and reads its metadata
/// and embedded cover, taking from `fallback`, the catalogue record of the
/// download, what the package does not say.
pub fn inspect_epub(bytes: Vec<u8>, fallback: &CatalogBookDto) -> (r: Result<ImportedMetadata, AppError>)
    ensures
        match import_package(bytes@) {
            Err(x) => r matches Err(e) && same_error(e@, x),
            Ok((opf, nodes)) => match import_cover_read(bytes@, nodes, opf) {
                Err(x) => r matches Err(e) && same_error(e@, x),
                Ok(c) => r matches Ok(m) && imported_from(m, nodes, *fallback) && cover_taken(
                    m.cover,
                    c,
                    nodes,
                ),
            },
        },
{
    let copy = bytes.clone();
    assert(copy@ == bytes@);
    let validated = match validate_new_epub(copy) {
        Ok(v) => v,
        Err(e) => return Err(e),
    };
    let opf_path = validated.opf_path;
    let copy = bytes.clone();
    assert(copy@ == bytes@);
    let opf_bytes = match read_validated_entry(copy, opf_path.as_str(), MAX_XML_BYTES) {
        Ok(b) => b,
        Err(e) => return Err(e),
    };
    let opf_xml = match utf8_string(opf_bytes) {
        Some(t) => t,
        None => return Err(bad_request("The EPUB has an invalid package document.")),
    };
    let nodes = match parse_xml(opf_xml.as_str()) {
        Ok(n) => n,
        Err(m) => {
            let mut message = to_chars("Invalid EPUB package metadata: ");
            let detail = to_chars(m.as_str());
            message.extend_from_slice(detail.as_slice());
            return Err(bad_request(string_of(message.as_slice()).as_str()));
        },
    };
    assert(import_package(bytes@) == Ok::<(Seq<char>, Seq<XmlNode>), ErrorView>((opf_path@, nodes@)));
    let (cover_path, media) = import_cover_target(&nodes, opf_path.as_str());
    let extension = extension_for_media(media.as_str());
    let cover = match cover_path {
        None => None,
        Some(p) => match read_validated_entry(bytes, p.as_str(), MAX_RESOURCE_BYTES as usize) {
            Ok(data) => Some((extension.to_string(), data)),
            Err(AppError::Io(message)) => return Err(AppError::Io(message)),
            Err(_) => None,
        },
    };
    let m = imported_metadata(&nodes, fallback, cover);
    assert(import_cover_read(bytes@, nodes@, opf_path@) matches Ok(c) && cover_taken(m.cover, c, nodes@));
    Ok(m)
}

/// One line per value: `open`, the value escaped, `close`.
pub open spec fn element_lines(values: Seq<Seq<char>>, open: Seq<char>, close: Seq<char>) -> Seq<char>
    decreases values.len(),
{
    if values.len() == 0 {
        Seq::empty()
    } else {
        element_lines(values.drop_last(), open, close) + open + spec_xml(values.last()) + close
    }
}

/// A line for a value that may be absent.
pub open spec fn optional_line(value: Option<Seq<char>>, open: Seq<char>, close: Seq<char>) -> Seq<char> {
    match value {
        Some(v) => open + spec_xml(v) + close,
        None => Seq::empty(),
    }
}

/// The package document written beside an imported EPUB. `series_index`
/// is the series position as the caller writes the number.
pub open spec fn spec_metadata_opf(m: ImportedMetadata, series_index: Option<Seq<char>>, source: CatalogBookDto) -> Seq<char> {
    "<?xml version=\"1.0\" encoding=\"UTF-8\"?>\n<package xmlns=\"http://www.idpf.org/2007/opf\" version=\"3.0\" unique-identifier=\"id\">\n  <metadata xmlns:dc=\"http://purl.org/dc/elements/1.1/\">\n    <dc:identifier id=\"id\">"@
        + spec_xml(m.identifier@) + "</dc:identifier>\n    <dc:title>"@ + spec_xml(m.title@)
        + "</dc:title>\n"@
        + element_lines(strs(m.authors@), "    <dc:creator>"@, "</dc:creator>\n"@)
        + element_lines(strs(m.subjects@), "    <dc:subject>"@, "</dc:subject>\n"@)
        + optional_line(opt_view(m.published), "    <dc:date>"@, "</dc:date>\n"@)
        + "    <dc:language>"@ + spec_xml(m.language@) + "</dc:language>\n    <dc:description>"@
        + spec_xml(or_text(opt_view(m.description), Seq::empty())) + "</dc:description>\n"@
        + optional_line(opt_view(m.series), "    <meta name=\"calibre:series\" content=\""@, "\"/>\n"@)
        + (match series_index {
            Some(v) => "    <meta name=\"calibre:series_index\" content=\""@ + v + "\"/>\n"@,
            None => Seq::empty(),
        })
        + optional_line(opt_view(source.source_url), "    <meta name=\"stori:source\" content=\""@, "\"/>\n"@)
        + "  </metadata>\n</package>\n"@
}

fn push_text(out: &mut Vec<char>, s: &str)
    ensures
        final(out)@ == old(out)@ + s@,
{
    let v = to_chars(s);
    out.extend_from_slice(v.as_slice());
}

fn push_escaped(out: &mut Vec<char>, s: &str)
    ensures
        final(out)@ == old(out)@ + spec_xml(s@),
{
    let e = xml(s);
    push_text(out, e.as_str());
}

fn push_lines(out: &mut Vec<char>, values: &Vec<String>, open: &str, close: &str)
    ensures
        final(out)@ == old(out)@ + element_lines(strs(values@), open@, close@),
{
    let ghost start = out@;
    let mut i: usize = 0;
    assert(strs(values@).take(0) =~= Seq::<Seq<char>>::empty());
    while i < values.len()
        invariant
            i <= values@.len(),
            out@ == start + element_lines(strs(values@).take(i as int), open@, close@),
        decreases values@.len() - i,
    {
        push_text(out, open);
        push_escaped(out, values[i].as_str());
        push_text(out, close);
        assert(strs(values@).take(i + 1).drop_last() =~= strs(values@).take(i as int));
        assert(strs(values@).take(i + 1).last() == values@[i as int]@);
        i = i + 1;
    }
    assert(strs(values@).take(values@.len() as int) =~= strs(values@));
}

fn push_optional(out: &mut Vec<char>, value: &Option<String>, open: &str, close: &str)
    ensures
        final(out)@ == old(out)@ + optional_line(opt_view(*value), open@, close@),
{
    match value {
        Some(v) => {
            push_text(out, open);
            push_escaped(out, v.as_str());
            push_text(out, close);
        },
        None => {},
    }
}

/// `metadata_opf`: the package document written beside an imported EPUB,
/// every value escaped for XML; `series_index` is the series position as
/// the caller writes the number.
pub fn metadata_opf(metadata: &ImportedMetadata, series_index: Option<&str>, source: &CatalogBookDto) -> (r: String)
    ensures
        r@ == spec_metadata_opf(
            *metadata,
            match series_index {
                Some(v) => Some(v@),
                None => None,
            },
            *source,
        ),
{
    let mut out: Vec<char> = Vec::new();
    push_text(&mut out, "<?xml version=\"1.0\" encoding=\"UTF-8\"?>\n<package xmlns=\"http://www.idpf.org/2007/opf\" version=\"3.0\" unique-identifier=\"id\">\n  <metadata xmlns:dc=\"http://purl.org/dc/elements/1.1/\">\n    <dc:identifier id=\"id\">");
    push_escaped(&mut out, metadata.identifier.as_str());
    push_text(&mut out, "</dc:identifier>\n    <dc:title>");
    push_escaped(&mut out, metadata.title.as_str());
    push_text(&mut out, "</dc:title>\n");
    push_lines(&mut out, &metadata.authors, "    <dc:creator>", "</dc:creator>\n");
    push_lines(&mut out, &metadata.subjects, "    <dc:subject>", "</dc:subject>\n");
    push_optional(&mut out, &metadata.published, "    <dc:date>", "</dc:date>\n");
    push_text(&mut out, "    <dc:language>");
    push_escaped(&mut out, metadata.language.as_str());
    push_text(&mut out, "</dc:language>\n    <dc:description>");
    match &metadata.description {
        Some(d) => push_escaped(&mut out, d.as_str()),
        None => {
            assert(spec_xml(Seq::<char>::empty()) =~= Seq::<char>::empty());
        },
    }
    push_text(&mut out, "</dc:description>\n");
    push_optional(&mut out, &metadata.series, "    <meta name=\"calibre:series\" content=\"", "\"/>\n");
    match series_index {
        Some(v) => {
            push_text(&mut out, "    <meta name=\"calibre:series_index\" content=\"");
            push_text(&mut out, v);
            push_text(&mut out, "\"/>\n");
        },
        None => {},
    }
    push_optional(&mut out, &source.source_url, "    <meta name=\"stori:source\" content=\"", "\"/>\n");
    push_text(&mut out, "  </metadata>\n</package>\n");
    string_of(out.as_slice())
}

/// The author a book is filed under: its first, or `Unknown Author`.
pub open spec fn filing_author(authors: Seq<Seq<char>>) -> Seq<char> {
    if authors.len() > 0 {
        authors[0]
    } else {
        "Unknown Author"@
    }
}

/// The author a book is filed under.
pub fn import_author(authors: &Vec<String>) -> (r: String)
    ensures
        r@ == filing_author(strs(authors@)),
{
    if authors.len() > 0 {
        authors[0].clone()
    } else {
        "Unknown Author".to_owned()
    }
}

/// The folders an imported book goes in, under the library's root: one
/// for its author, one for its title, both safe names.
pub fn book_folders(authors: &Vec<String>, title: &str) -> (r: (String, String))
    ensures
        r.0@ == spec_safe_name(filing_author(strs(authors@))),
        r.1@ == spec_safe_name(title@),
{
    let author = import_author(authors);
    (safe_name(author.as_str()), safe_name(title))
}

/// The stem of an imported EPUB's file name: `{title} - {author}`, both
/// safe names.
pub fn epub_file_stem(title: &str, author: &str) -> (r: String)
    ensures
        r@ == spec_safe_name(title@) + " - "@ + spec_safe_name(author@),
{
    let mut v = to_chars(safe_name(title).as_str());
    v.extend_from_slice(to_chars(" - ").as_slice());
    v.extend_from_slice(to_chars(safe_name(author).as_str()).as_slice());
    string_of(v.as_slice())
}

/// `name (n)`.
pub open spec fn numbered(name: Seq<char>, n: nat) -> Seq<char> {
    name + " ("@ + dec_nat(n) + ")"@
}

/// The `attempt`-th name tried for a new book folder: the name itself,
/// then `name (2)` up to `name (999)`.
pub open spec fn spec_directory_candidate(name: Seq<char>, attempt: nat) -> Seq<char> {
    if attempt <= 1 {
        name
    } else {
        numbered(name, attempt)
    }
}

/// The `attempt`-th name tried for a new file: `stem.ext`, then
/// `stem (2).ext` up to `stem (999).ext`.
pub open spec fn spec_file_candidate(stem: Seq<char>, extension: Seq<char>, attempt: nat) -> Seq<char> {
    if attempt <= 1 {
        stem + seq!['.'] + extension
    } else {
        numbered(stem, attempt) + seq!['.'] + extension
    }
}

/// The number of names tried before one is made unique by a random suffix.
pub const CANDIDATE_ATTEMPTS: u32 = 999;

fn push_numbered(out: &mut Vec<char>, n: u32)
    ensures
        final(out)@ == old(out)@ + " ("@ + dec_nat(n as nat) + ")"@,
{
    out.extend_from_slice(to_chars(" (").as_slice());
    out.extend_from_slice(u64_digits(n as u64).as_slice());
    out.extend_from_slice(to_chars(")").as_slice());
}

/// `unique_directory`'s candidates, tried in turn until one is free.
pub fn directory_candidate(name: &str, attempt: u32) -> (r: String)
    requires
        1 <= attempt <= CANDIDATE_ATTEMPTS,
    ensures
        r@ == spec_directory_candidate(name@, attempt as nat),
{
    let mut v = to_chars(name);
    if attempt > 1 {
        push_numbered(&mut v, attempt);
    }
    string_of(v.as_slice())
}

/// `unique_path`'s candidates, tried in turn until one is free.
pub fn file_candidate(stem: &str, extension: &str, attempt: u32) -> (r: String)
    requires
        1 <= attempt <= CANDIDATE_ATTEMPTS,
    ensures
        r@ == spec_file_candidate(stem@, extension@, attempt as nat),
{
    let mut v = to_chars(stem);
    if attempt > 1 {
        push_numbered(&mut v, attempt);
    }
    v.push('.');
    v.extend_from_slice(to_chars(extension).as_slice());
    string_of(v.as_slice())
}

/// The name used when every candidate is taken: `{name}-{unique}`
/// (with `.{extension}` for a file), where `unique` is a fresh UUID.
pub fn unique_fallback_name(name: &str, unique: &str, extension: Option<&str>) -> (r: String)
    ensures
        r@ == name@ + seq!['-'] + unique@ + match extension {
            Some(e) => seq!['.'] + e@,
            None => Seq::empty(),
        },
{
    let mut v = to_chars(name);
    v.push('-');
    v.extend_from_slice(to_chars(unique).as_slice());
    match extension {
        Some(e) => {
            v.push('.');
            v.extend_from_slice(to_chars(e).as_slice());
        },
        None => {},
    }
    string_of(v.as_slice())
}

/// The file that records an imported book's checksum.
pub const CHECKSUM_FILE: &'static str = ".stori.sha256";

/// The contents of the checksum file: the checksum and a newline.
pub fn checksum_record(checksum: &str) -> (r: String)
    ensures
        r@ == checksum@ + seq!['\n'],
{
    let mut v = to_chars(checksum);
    v.push('\n');
    string_of(v.as_slice())
}

/// Whether a checksum file records `checksum`: its text, trimmed, is it.
pub fn checksum_matches(record: &str, checksum: &str) -> (r: bool)
    ensures
        r == (trim(record@) == checksum@),
{
    let t = trim_chars(to_chars(record).as_slice());
    chars_eq(t.as_slice(), to_chars(checksum).as_slice())
}

/// A checksum without surrounding whitespace, such as a hex digest, is
/// found again in the record written for it.
pub proof fn lemma_checksum_record_matches(checksum: Seq<char>)
    requires
        trim(checksum) == checksum,
    ensures
        trim(checksum + seq!['\n']) == checksum,
{
    let c = checksum;
    let s = c + seq!['\n'];
    if c.len() == 0 {
        assert(s.len() == 1 && is_ws(s[0]));
        lemma_trim_start_skip(s, 1);
        assert(s.skip(1) =~= c);
    } else {
        if is_ws(c[0]) {
            lemma_trim_start_len(c.drop_first());
            lemma_trim_end_len(trim_start(c));
            assert(false);
        }
        lemma_trim_start_skip(c, 0);
        assert(c.skip(0) =~= c);
        if is_ws(c.last()) {
            lemma_trim_end_len(c.drop_last());
            assert(false);
        }
        assert(s[0] == c[0]);
        lemma_trim_start_skip(s, 0);
        assert(s.skip(0) =~= s);
        assert(s[s.len() - 1] == '\n');
        assert(s[c.len() - 1] == c.last());
        lemma_trim_end_take(s, c.len() as int);
        assert(s.take(c.len() as int) =~= c);
    }
}

proof fn lemma_trim_start_len(s: Seq<char>)
    ensures
        trim_start(s).len() <= s.len(),
    decreases s.len(),
{
    if s.len() > 0 && is_ws(s[0]) {
        lemma_trim_start_len(s.drop_first());
    }
}

proof fn lemma_trim_end_len(s: Seq<char>)
    ensures
        trim_end(s).len() <= s.len(),
    decreases s.len(),
{
    if s.len() > 0 && is_ws(s.last()) {
        lemma_trim_end_len(s.drop_last());
    }
}

/// The partial file of download job `id`.
pub fn part_file_name(id: &str) -> (r: String)
    ensures
        r@ == id@ + ".epub.part"@,
{
    let mut v = to_chars(id);
    v.extend_from_slice(to_chars(".epub.part").as_slice());
    string_of(v.as_slice())
}

/// The job that a partial file belongs to: its name without `.epub.part`.
pub open spec fn spec_part_job_id(file_name: Seq<char>) -> Option<Seq<char>> {
    if ends_with(file_name, ".epub.part"@) {
        Some(file_name.take(file_name.len() - ".epub.part"@.len()))
    } else {
        None
    }
}

/// The job that a partial file belongs to, if its name is one.
pub fn part_job_id(file_name: &str) -> (r: Option<String>)
    ensures
        opt_view(r) == spec_part_job_id(file_name@),
{
    let v = to_chars(file_name);
    let suffix = to_chars(".epub.part");
    if ends_with_chars(v.as_slice(), suffix.as_slice()) {
        let n = v.len() - suffix.len();
        let mut out: Vec<char> = Vec::new();
        let mut i: usize = 0;
        while i < n
            invariant
                n <= v@.len(),
                i <= n,
                out@ == v@.take(i as int),
            decreases n - i,
        {
            out.push(v[i]);
            i = i + 1;
            assert(out@ =~= v@.take(i as int));
        }
        Some(string_of(out.as_slice()))
    } else {
        None
    }
}

/// A partial file left behind by a job that no longer exists, which the
/// startup cleanup deletes.
pub open spec fn spec_orphan_part(file_name: Seq<char>, known: Seq<Seq<char>>) -> bool {
    spec_part_job_id(file_name) matches Some(id) && !known.contains(id)
}

/// Whether a file of the partial-download folder is an orphan.
pub fn is_orphan_part(file_name: &str, known: &Vec<String>) -> (r: bool)
    ensures
        r == spec_orphan_part(file_name@, strs(known@)),
{
    let id = match part_job_id(file_name) {
        None => return false,
        Some(id) => id,
    };
    let idv = to_chars(id.as_str());
    let mut i: usize = 0;
    while i < known.len()
        invariant
            i <= known@.len(),
            idv@ == id@,
            spec_part_job_id(file_name@) == Some(id@),
            forall|j: int| 0 <= j < i ==> strs(known@)[j] != id@,
        decreases known@.len() - i,
    {
        if chars_eq(to_chars(known[i].as_str()).as_slice(), idv.as_slice()) {
            assert(strs(known@)[i as int] == id@);
            assert(strs(known@).contains(id@));
            return false;
        }
        i = i + 1;
    }
    true
}

/// A job's partial file is never taken for an orphan while the job exists.
pub proof fn lemma_part_file_of_known_job(id: Seq<char>, known: Seq<Seq<char>>)
    requires
        known.contains(id),
    ensures
        spec_part_job_id(id + ".epub.part"@) == Some(id),
        !spec_orphan_part(id + ".epub.part"@, known),
{
    let f = id + ".epub.part"@;
    assert(f.subrange(f.len() - ".epub.part"@.len(), f.len() as int) =~= ".epub.part"@);
    assert(f.take(f.len() - ".epub.part"@.len()) =~= id);
}

/// The setting that records that the starter shelf was queued.
pub const STARTER_PACK_SETTING: &'static str = "starter_pack_version";

/// Whether the starter shelf is still to be queued: its setting is not
/// `1`.
pub fn needs_starter_pack(setting: Option<&str>) -> (r: bool)
    ensures
        r == !(setting matches Some(v) && v@ == "1"@),
{
    match setting {
        None => true,
        Some(v) => !chars_eq(to_chars(v).as_slice(), to_chars("1").as_slice()),
    }
}

/// Whether a file extension is `epub`, in any case.
pub fn is_epub_extension(extension: Option<&str>) -> (r: bool)
    ensures
        r == (extension matches Some(e) && eq_ignore_case(e@, "epub"@)),
{
    match extension {
        None => false,
        Some(e) => eq_ignore_ascii_case(to_chars(e).as_slice(), to_chars("epub").as_slice()),
    }
}

/// The largest cover image fetched from a catalogue.
pub const MAX_COVER_DOWNLOAD: u64 = 10 * 1024 * 1024;

/// Whether a downloaded cover of `length` bytes is kept.
pub fn cover_download_allowed(length: u64) -> (r: bool)
    ensures
        r == (length <= MAX_COVER_DOWNLOAD),
{
    length <= MAX_COVER_DOWNLOAD
}

} // verus!
