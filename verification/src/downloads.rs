//! Download management: which sources are trusted, how imported books are
//! named and described, and the decisions taken while a download runs.

use crate::error::{bad_request, AppError, ErrorView};
use crate::models::CatalogBookDto;
use crate::paths::{spec_walk_join, walk_join};
use crate::scanner::{opt_view, strs, lemma_strs_push};
use crate::text::{
    contains_seq, chars_eq, is_ctrl, is_whitespace, is_ws, string_of, to_chars, trim, trim_chars,
};
use crate::json::{as_array, as_i64, as_str, entry_value, find_entry, get_member, member, str_of, Json};
use vstd::prelude::*;

verus! {

/// The record of a starter book: a Standard Ebooks edition with the
/// given identity, descriptions and subjects.
pub open spec fn is_starter(
    b: CatalogBookDto,
    provider_id: Seq<char>,
    title: Seq<char>,
    author: Seq<char>,
    description: Seq<char>,
    published: Seq<char>,
    subjects: Seq<Seq<char>>,
    download_url: Seq<char>,
) -> bool {
    &&& b.provider@ == "Standard Ebooks"@
    &&& b.provider_id@ == provider_id
    &&& b.title@ == title
    &&& strs(b.authors@) == seq![author]
    &&& opt_view(b.description) == Some(description)
    &&& opt_view(b.language) == Some("en-US"@)
    &&& opt_view(b.published) == Some(published)
    &&& strs(b.subjects@) == subjects
    &&& b.cover_url is None
    &&& b.download_url@ == download_url
    &&& opt_view(b.source_url) == Some("https://standardebooks.org/ebooks/"@ + provider_id)
    &&& b.license_label@ == "Public-domain edition — Standard Ebooks"@
}

/// `starter_books`: the two books that a new library starts with.
pub fn starter_books() -> (r: [CatalogBookDto; 2])
    ensures
        is_starter(
            r@[0],
            "f-scott-fitzgerald/the-great-gatsby"@,
            "The Great Gatsby"@,
            "F. Scott Fitzgerald"@,
            "A vivid portrait of ambition, longing, and the American Dream in the Jazz Age."@,
            "1925"@,
            seq!["Fiction"@],
            "https://standardebooks.org/ebooks/f-scott-fitzgerald/the-great-gatsby/downloads/f-scott-fitzgerald_the-great-gatsby.epub?source=download"@,
        ),
        is_starter(
            r@[1],
            "mary-shelley/frankenstein"@,
            "Frankenstein"@,
            "Mary Shelley"@,
            "Mary Shelley’s foundational tale of creation, responsibility, and belonging."@,
            "1818"@,
            seq!["Horror"@, "Science Fiction"@],
            "https://standardebooks.org/ebooks/mary-shelley/frankenstein/downloads/mary-shelley_frankenstein.epub?source=download"@,
        ),
{
    let gatsby_authors = vec!["F. Scott Fitzgerald".to_owned()];
    let gatsby_subjects = vec!["Fiction".to_owned()];
    let gatsby_source = to_chars("https://standardebooks.org/ebooks/");
    let mut gatsby_source = gatsby_source;
    gatsby_source.extend_from_slice(to_chars("f-scott-fitzgerald/the-great-gatsby").as_slice());
    let gatsby = CatalogBookDto {
        provider: "Standard Ebooks".to_owned(),
        provider_id: "f-scott-fitzgerald/the-great-gatsby".to_owned(),
        title: "The Great Gatsby".to_owned(),
        authors: gatsby_authors,
        description: Some(
            "A vivid portrait of ambition, longing, and the American Dream in the Jazz Age.".to_owned(),
        ),
        language: Some("en-US".to_owned()),
        published: Some("1925".to_owned()),
        subjects: gatsby_subjects,
        cover_url: None,
        download_url: "https://standardebooks.org/ebooks/f-scott-fitzgerald/the-great-gatsby/downloads/f-scott-fitzgerald_the-great-gatsby.epub?source=download".to_owned(),
        source_url: Some(string_of(gatsby_source.as_slice())),
        license_label: "Public-domain edition — Standard Ebooks".to_owned(),
    };
    let shelley_authors = vec!["Mary Shelley".to_owned()];
    let shelley_subjects = vec!["Horror".to_owned(), "Science Fiction".to_owned()];
    let mut shelley_source = to_chars("https://standardebooks.org/ebooks/");
    shelley_source.extend_from_slice(to_chars("mary-shelley/frankenstein").as_slice());
    let frankenstein = CatalogBookDto {
        provider: "Standard Ebooks".to_owned(),
        provider_id: "mary-shelley/frankenstein".to_owned(),
        title: "Frankenstein".to_owned(),
        authors: shelley_authors,
        description: Some(
            "Mary Shelley’s foundational tale of creation, responsibility, and belonging.".to_owned(),
        ),
        language: Some("en-US".to_owned()),
        published: Some("1818".to_owned()),
        subjects: shelley_subjects,
        cover_url: None,
        download_url: "https://standardebooks.org/ebooks/mary-shelley/frankenstein/downloads/mary-shelley_frankenstein.epub?source=download".to_owned(),
        source_url: Some(string_of(shelley_source.as_slice())),
        license_label: "Public-domain edition — Standard Ebooks".to_owned(),
    };
    assert(strs(gatsby.authors@) =~= seq!["F. Scott Fitzgerald"@]);
    assert(strs(gatsby.subjects@) =~= seq!["Fiction"@]);
    assert(strs(frankenstein.authors@) =~= seq!["Mary Shelley"@]);
    assert(strs(frankenstein.subjects@) =~= seq!["Horror"@, "Science Fiction"@]);
    assert(gatsby.provider@ == "Standard Ebooks"@);
    assert(opt_view(gatsby.source_url) == Some("https://standardebooks.org/ebooks/"@ + "f-scott-fitzgerald/the-great-gatsby"@));
    assert(opt_view(frankenstein.source_url) == Some("https://standardebooks.org/ebooks/"@ + "mary-shelley/frankenstein"@));
    let r = [gatsby, frankenstein];
    assert(r@[0] == gatsby);
    assert(r@[1] == frankenstein);
    r
}

/// Characters that Windows does not allow in file names.
pub open spec fn is_reserved(c: char) -> bool {
    c == '<' || c == '>' || c == ':' || c == '"' || c == '/' || c == '\\' || c == '|' || c == '?'
        || c == '*' || is_ctrl(c)
}

/// `s` without trailing dots.
pub open spec fn trim_end_dots(s: Seq<char>) -> Seq<char>
    decreases s.len(),
{
    if s.len() > 0 && s.last() == '.' {
        trim_end_dots(s.drop_last())
    } else {
        s
    }
}

pub open spec fn take_at_most(s: Seq<char>, n: int) -> Seq<char> {
    if s.len() <= n {
        s
    } else {
        s.take(n)
    }
}

/// A folder or file name made safe for Windows: reserved and control
/// characters become `_`, surrounding whitespace and trailing dots go, at
/// most 100 characters are kept, and an empty result reads `Untitled`.
pub open spec fn spec_safe_name(value: Seq<char>) -> Seq<char> {
    let cleaned = value.map_values(|c: char| if is_reserved(c) { '_' } else { c });
    let kept = trim(take_at_most(trim_end_dots(trim(cleaned)), 100));
    if kept.len() == 0 {
        "Untitled"@
    } else {
        kept
    }
}

pub proof fn lemma_trim_end_dots_take(s: Seq<char>, k: int)
    requires
        0 <= k <= s.len(),
        forall|j: int| k <= j < s.len() ==> s[j] == '.',
        k == 0 || s[k - 1] != '.',
    ensures
        trim_end_dots(s) == s.take(k),
    decreases s.len() - k,
{
    if k == s.len() {
        assert(s.take(k) =~= s);
    } else {
        lemma_trim_end_dots_take(s.drop_last(), k);
        assert(s.drop_last().take(k) =~= s.take(k));
    }
}

fn reserved(c: char) -> (r: bool)
    ensures
        r == is_reserved(c),
{
    c == '<' || c == '>' || c == ':' || c == '"' || c == '/' || c == '\\' || c == '|' || c == '?'
        || c == '*' || crate::text::is_control(c)
}

/// `safe_name`: a name that can stand as a folder or file name.
pub fn safe_name(value: &str) -> (r: String)
    ensures
        r@ == spec_safe_name(value@),
{
    let v = to_chars(value);
    let mut cleaned: Vec<char> = Vec::new();
    let mut i: usize = 0;
    while i < v.len()
        invariant
            i <= v@.len(),
            cleaned@ == v@.take(i as int).map_values(|c: char| if is_reserved(c) { '_' } else { c }),
        decreases v@.len() - i,
    {
        let c = v[i];
        if reserved(c) {
            cleaned.push('_');
        } else {
            cleaned.push(c);
        }
        i = i + 1;
        assert(cleaned@ =~= v@.take(i as int).map_values(|c: char| if is_reserved(c) { '_' } else { c }));
    }
    assert(v@.take(v@.len() as int) =~= v@);
    let t = trim_chars(cleaned.as_slice());
    let mut k: usize = t.len();
    while k > 0 && t[k - 1] == '.'
        invariant
            k <= t@.len(),
            forall|j: int| k <= j < t@.len() ==> t@[j] == '.',
        decreases k,
    {
        k = k - 1;
    }
    proof {
        lemma_trim_end_dots_take(t@, k as int);
    }
    let n: usize = if k <= 100 { k } else { 100 };
    let mut kept: Vec<char> = Vec::new();
    let mut j: usize = 0;
    while j < n
        invariant
            n <= k <= t@.len(),
            j <= n,
            kept@ == t@.take(j as int),
        decreases n - j,
    {
        kept.push(t[j]);
        j = j + 1;
        assert(kept@ =~= t@.take(j as int));
    }
    assert(kept@ =~= take_at_most(t@.take(k as int), 100));
    let result = trim_chars(kept.as_slice());
    if result.len() == 0 {
        "Untitled".to_owned()
    } else {
        string_of(result.as_slice())
    }
}

/// The XML escape of one character.
pub open spec fn escape_char(c: char) -> Seq<char> {
    if c == '&' {
        "&amp;"@
    } else if c == '<' {
        "&lt;"@
    } else if c == '>' {
        "&gt;"@
    } else if c == '"' {
        "&quot;"@
    } else if c == '\'' {
        "&apos;"@
    } else {
        seq![c]
    }
}

/// XML text with the five markup characters escaped.
pub open spec fn spec_xml(s: Seq<char>) -> Seq<char>
    decreases s.len(),
{
    if s.len() == 0 {
        Seq::empty()
    } else {
        spec_xml(s.drop_last()) + escape_char(s.last())
    }
}

/// `xml`: `value` escaped for XML text and attribute values.
pub fn xml(value: &str) -> (r: String)
    ensures
        r@ == spec_xml(value@),
{
    let v = to_chars(value);
    let amp = to_chars("&amp;");
    let lt = to_chars("&lt;");
    let gt = to_chars("&gt;");
    let quot = to_chars("&quot;");
    let apos = to_chars("&apos;");
    let mut out: Vec<char> = Vec::new();
    let mut i: usize = 0;
    while i < v.len()
        invariant
            i <= v@.len(),
            amp@ == "&amp;"@,
            lt@ == "&lt;"@,
            gt@ == "&gt;"@,
            quot@ == "&quot;"@,
            apos@ == "&apos;"@,
            out@ == spec_xml(v@.take(i as int)),
        decreases v@.len() - i,
    {
        let c = v[i];
        if c == '&' {
            out.extend_from_slice(amp.as_slice());
        } else if c == '<' {
            out.extend_from_slice(lt.as_slice());
        } else if c == '>' {
            out.extend_from_slice(gt.as_slice());
        } else if c == '"' {
            out.extend_from_slice(quot.as_slice());
        } else if c == '\'' {
            out.extend_from_slice(apos.as_slice());
        } else {
            out.push(c);
        }
        i = i + 1;
        assert(v@.take(i as int).drop_last() =~= v@.take(i - 1));
        assert(out@ =~= spec_xml(v@.take(i as int)));
    }
    assert(v@.take(v@.len() as int) =~= v@);
    string_of(out.as_slice())
}

/// `resolve_epub_path` of the importer: `href` resolved against the
/// directory of the package document, `..` climbing no higher than the root.
pub fn resolve_epub_path(opf_path: &str, href: &str) -> (r: String)
    ensures
        r@ == spec_walk_join(opf_path@, href@),
{
    let o = to_chars(opf_path);
    let h = to_chars(href);
    let joined = walk_join(o.as_slice(), h.as_slice());
    string_of(joined.as_slice())
}


pub open spec fn no_reserved(s: Seq<char>) -> bool {
    forall|i: int| 0 <= i < s.len() ==> !is_reserved(#[trigger] s[i])
}

proof fn lemma_no_reserved_trim_start(s: Seq<char>)
    requires
        no_reserved(s),
    ensures
        no_reserved(crate::text::trim_start(s)),
        crate::text::trim_start(s).len() <= s.len(),
    decreases s.len(),
{
    if s.len() > 0 && is_ws(s[0]) {
        assert forall|i: int| 0 <= i < s.drop_first().len() implies !is_reserved(#[trigger] s.drop_first()[i]) by {
            assert(s.drop_first()[i] == s[i + 1]);
        }
        lemma_no_reserved_trim_start(s.drop_first());
    }
}

proof fn lemma_no_reserved_trim_end(s: Seq<char>)
    requires
        no_reserved(s),
    ensures
        no_reserved(crate::text::trim_end(s)),
        crate::text::trim_end(s).len() <= s.len(),
    decreases s.len(),
{
    if s.len() > 0 && is_ws(s.last()) {
        assert forall|i: int| 0 <= i < s.drop_last().len() implies !is_reserved(#[trigger] s.drop_last()[i]) by {
            assert(s.drop_last()[i] == s[i]);
        }
        lemma_no_reserved_trim_end(s.drop_last());
    }
}

proof fn lemma_no_reserved_trim_end_dots(s: Seq<char>)
    requires
        no_reserved(s),
    ensures
        no_reserved(trim_end_dots(s)),
    decreases s.len(),
{
    if s.len() > 0 && s.last() == '.' {
        assert forall|i: int| 0 <= i < s.drop_last().len() implies !is_reserved(#[trigger] s.drop_last()[i]) by {
            assert(s.drop_last()[i] == s[i]);
        }
        lemma_no_reserved_trim_end_dots(s.drop_last());
    }
}

/// A safe name is never empty, holds at most 100 characters, and holds no
/// character that Windows reserves in file names.
pub proof fn lemma_safe_name_is_safe(value: Seq<char>)
    ensures
        0 < spec_safe_name(value).len() <= 100,
        no_reserved(spec_safe_name(value)),
{
    let cleaned = value.map_values(|c: char| if is_reserved(c) { '_' } else { c });
    assert(no_reserved(cleaned));
    lemma_no_reserved_trim_start(cleaned);
    lemma_no_reserved_trim_end(crate::text::trim_start(cleaned));
    let t = trim(cleaned);
    lemma_no_reserved_trim_end_dots(t);
    let d = trim_end_dots(t);
    let k = take_at_most(d, 100);
    assert(no_reserved(k));
    assert(k.len() <= 100);
    lemma_no_reserved_trim_start(k);
    lemma_no_reserved_trim_end(crate::text::trim_start(k));
    reveal_strlit("Untitled");
}

/// Whether `c` is one of the characters that XML escaping removes from text.
pub open spec fn is_markup(c: char) -> bool {
    c == '<' || c == '>' || c == '"' || c == '\''
}

/// Escaped text holds no raw `<`, `>`, `"` or `'`, and escaping never
/// shortens text.
pub proof fn lemma_xml_has_no_markup(s: Seq<char>)
    ensures
        forall|i: int| 0 <= i < spec_xml(s).len() ==> !is_markup(#[trigger] spec_xml(s)[i]),
        spec_xml(s).len() >= s.len(),
    decreases s.len(),
{
    if s.len() > 0 {
        lemma_xml_has_no_markup(s.drop_last());
        reveal_strlit("&amp;");
        reveal_strlit("&lt;");
        reveal_strlit("&gt;");
        reveal_strlit("&quot;");
        reveal_strlit("&apos;");
        let a = spec_xml(s.drop_last());
        let b = escape_char(s.last());
        assert forall|i: int| 0 <= i < (a + b).len() implies !is_markup(#[trigger] (a + b)[i]) by {
            if i >= a.len() {
                assert((a + b)[i] == b[i - a.len()]);
            }
        }
    }
}


/// XML text read back: each of the five entities that `xml` writes stands
/// for its character, and any other character stands for itself.
pub open spec fn spec_unescape_xml(s: Seq<char>) -> Seq<char>
    decreases s.len(),
{
    if s.len() == 0 {
        Seq::empty()
    } else if s.len() >= 5 && s.take(5) == "&amp;"@ {
        seq!['&'] + spec_unescape_xml(s.skip(5))
    } else if s.len() >= 4 && s.take(4) == "&lt;"@ {
        seq!['<'] + spec_unescape_xml(s.skip(4))
    } else if s.len() >= 4 && s.take(4) == "&gt;"@ {
        seq!['>'] + spec_unescape_xml(s.skip(4))
    } else if s.len() >= 6 && s.take(6) == "&quot;"@ {
        seq!['"'] + spec_unescape_xml(s.skip(6))
    } else if s.len() >= 6 && s.take(6) == "&apos;"@ {
        seq!['\''] + spec_unescape_xml(s.skip(6))
    } else {
        seq![s[0]] + spec_unescape_xml(s.skip(1))
    }
}

proof fn lemma_xml_append(a: Seq<char>, b: Seq<char>)
    ensures
        spec_xml(a + b) == spec_xml(a) + spec_xml(b),
    decreases b.len(),
{
    if b.len() == 0 {
        assert(a + b =~= a);
        assert(spec_xml(a) + spec_xml(b) =~= spec_xml(a));
    } else {
        lemma_xml_append(a, b.drop_last());
        assert((a + b).drop_last() =~= a + b.drop_last());
        assert((a + b).last() == b.last());
        assert(spec_xml(a + b) =~= spec_xml(a) + spec_xml(b));
    }
}

proof fn lemma_xml_front(s: Seq<char>)
    requires
        s.len() > 0,
    ensures
        spec_xml(s) == escape_char(s[0]) + spec_xml(s.drop_first()),
{
    let first = seq![s[0]];
    assert(first + s.drop_first() =~= s);
    lemma_xml_append(first, s.drop_first());
    assert(first.drop_last() =~= Seq::<char>::empty());
    assert(first.last() == s[0]);
    assert(spec_xml(Seq::<char>::empty()) == Seq::<char>::empty());
    assert(spec_xml(first) =~= escape_char(s[0]));
}

proof fn lemma_unescape_escape_char(c: char, rest: Seq<char>)
    ensures
        spec_unescape_xml(escape_char(c) + rest) == seq![c] + spec_unescape_xml(rest),
{
    reveal_strlit("&amp;");
    reveal_strlit("&lt;");
    reveal_strlit("&gt;");
    reveal_strlit("&quot;");
    reveal_strlit("&apos;");
    let e = escape_char(c);
    let s = e + rest;
    assert(s.len() > 0);
    assert(forall|i: int| 0 <= i < e.len() ==> s[i] == e[i]);
    assert(s.skip(e.len() as int) =~= rest);
    assert(s.take(e.len() as int) =~= e);
    if c == '&' {
        assert(s.take(5) =~= "&amp;"@);
    } else if c == '<' {
        if s.len() >= 5 {
            assert(s.take(5)[1] != "&amp;"@[1]);
        }
        assert(s.take(4) =~= "&lt;"@);
    } else if c == '>' {
        if s.len() >= 5 {
            assert(s.take(5)[1] != "&amp;"@[1]);
        }
        if s.len() >= 4 {
            assert(s.take(4)[1] != "&lt;"@[1]);
        }
        assert(s.take(4) =~= "&gt;"@);
    } else if c == '"' {
        if s.len() >= 5 {
            assert(s.take(5)[1] != "&amp;"@[1]);
        }
        if s.len() >= 4 {
            assert(s.take(4)[1] != "&lt;"@[1]);
        }
        if s.len() >= 4 {
            assert(s.take(4)[1] != "&gt;"@[1]);
        }
        assert(s.take(6) =~= "&quot;"@);
    } else if c == '\'' {
        if s.len() >= 5 {
            assert(s.take(5)[2] != "&amp;"@[2]);
        }
        if s.len() >= 4 {
            assert(s.take(4)[1] != "&lt;"@[1]);
        }
        if s.len() >= 4 {
            assert(s.take(4)[1] != "&gt;"@[1]);
        }
        if s.len() >= 6 {
            assert(s.take(6)[1] != "&quot;"@[1]);
        }
        assert(s.take(6) =~= "&apos;"@);
    } else {
        assert(e =~= seq![c]);
        if s.len() >= 5 {
            assert(s.take(5)[0] != "&amp;"@[0]);
        }
        if s.len() >= 4 {
            assert(s.take(4)[0] != "&lt;"@[0]);
        }
        if s.len() >= 6 {
            assert(s.take(6)[0] != "&quot;"@[0]);
        }
    }
}

/// Reading escaped text back gives the text that was escaped: every
/// character of the input, `&` included, is escaped exactly once.
pub proof fn lemma_xml_round_trip(s: Seq<char>)
    ensures
        spec_unescape_xml(spec_xml(s)) == s,
    decreases s.len(),
{
    if s.len() > 0 {
        lemma_xml_front(s);
        lemma_xml_round_trip(s.drop_first());
        lemma_unescape_escape_char(s[0], spec_xml(s.drop_first()));
        assert(seq![s[0]] + s.drop_first() =~= s);
    }
}

/// The authors of a catalogue book read from a search result are the
/// string `name` members of the result's `authors` array, in order, one for
/// each author object that has one.
pub proof fn lemma_catalog_authors(b: CatalogBookDto, item: Json, authors: Seq<Json>)
    requires
        catalog_from(b, item),
        as_array(member(item, "authors"@)) == Some(authors),
    ensures
        strs(b.authors@) == authors.filter(|j: Json| has_name(j)).map_values(|j: Json| name_of(j)),
        strs(b.authors@).len() == authors.filter(|j: Json| has_name(j)).len(),
{
    lemma_name_items_are_the_names(authors);
}

/// The `formats` object of a catalog item.
pub open spec fn formats_of(item: Json) -> Option<Seq<(String, Json)>> {
    match member(item, "formats"@) {
        Some(Json::Object(entries)) => Some(entries@),
        _ => None,
    }
}

/// The first format whose key mentions `epub` and whose value is a string.
pub open spec fn any_epub_url(entries: Seq<(String, Json)>) -> Option<Seq<char>>
    decreases entries.len(),
{
    if entries.len() == 0 {
        None
    } else if contains_seq(entries[0].0@, "epub"@) && entries[0].1 is String {
        as_str(Some(entries[0].1))
    } else {
        any_epub_url(entries.drop_first())
    }
}

/// The EPUB download of a catalog item: the `application/epub+zip` format,
/// else `application/epub3+zip`, else any string format whose key mentions
/// `epub`.
pub open spec fn spec_download_url(item: Json) -> Option<Seq<char>> {
    match formats_of(item) {
        None => None,
        Some(f) => match as_str(entry_value(f, "application/epub+zip"@)) {
            Some(u) => Some(u),
            None => match as_str(entry_value(f, "application/epub3+zip"@)) {
                Some(u) => Some(u),
                None => any_epub_url(f),
            },
        },
    }
}

/// The string members of an array, in order.
pub open spec fn string_items(items: Seq<Json>) -> Seq<Seq<char>>
    decreases items.len(),
{
    if items.len() == 0 {
        Seq::empty()
    } else {
        let rest = string_items(items.drop_last());
        match as_str(Some(items.last())) {
            Some(s) => rest.push(s),
            None => rest,
        }
    }
}

/// The `name` strings of an array of objects, in order.
pub open spec fn name_items(items: Seq<Json>) -> Seq<Seq<char>>
    decreases items.len(),
{
    if items.len() == 0 {
        Seq::empty()
    } else {
        let rest = name_items(items.drop_last());
        match as_str(member(items.last(), "name"@)) {
            Some(s) => rest.push(s),
            None => rest,
        }
    }
}

/// Whether a JSON value is an object with a string member `name`.
pub open spec fn has_name(item: Json) -> bool {
    as_str(member(item, "name"@)) is Some
}

/// The string member `name` of an object that has one.
pub open spec fn name_of(item: Json) -> Seq<char> {
    as_str(member(item, "name"@))->0
}

/// The names read from an array of objects are exactly the string `name`
/// members of its objects, in order: one for each object that has one,
/// none for the others. In particular, where every object has a name,
/// each object gives its own name at its own position.
pub proof fn lemma_name_items_are_the_names(items: Seq<Json>)
    ensures
        name_items(items) == items.filter(|j: Json| has_name(j)).map_values(|j: Json| name_of(j)),
        (forall|i: int| 0 <= i < items.len() ==> has_name(#[trigger] items[i])) ==> (name_items(items).len()
            == items.len() && forall|i: int| 0 <= i < items.len() ==> #[trigger] name_items(items)[i] == name_of(items[i])),
    decreases items.len(),
{
    reveal(Seq::filter);
    if items.len() > 0 {
        let rest = items.drop_last();
        lemma_name_items_are_the_names(rest);
        let p = |j: Json| has_name(j);
        let f = |j: Json| name_of(j);
        assert(items.filter(p) == if p(items.last()) {
            rest.filter(p).push(items.last())
        } else {
            rest.filter(p)
        });
        if has_name(items.last()) {
            assert(rest.filter(p).push(items.last()).map_values(f) =~= rest.filter(p).map_values(f).push(name_of(items.last())));
        }
        if forall|i: int| 0 <= i < items.len() ==> has_name(#[trigger] items[i]) {
            assert forall|i: int| 0 <= i < rest.len() implies has_name(#[trigger] rest[i]) by {
                assert(rest[i] == items[i]);
            }
            assert(has_name(items[items.len() - 1]));
            assert forall|i: int| 0 <= i < items.len() implies #[trigger] name_items(items)[i] == name_of(items[i]) by {
                if i < rest.len() {
                    assert(rest[i] == items[i]);
                }
            }
        }
    }
}

pub open spec fn spec_item_id(item: Json) -> Seq<char> {
    crate::text::dec_int(
        match as_i64(member(item, "id"@)) {
            Some(n) => n as int,
            None => 0,
        },
    )
}

/// A catalog book read from one Project Gutenberg search result.
pub open spec fn catalog_from(b: CatalogBookDto, item: Json) -> bool {
    let id = spec_item_id(item);
    &&& b.provider@ == "Project Gutenberg"@
    &&& b.provider_id@ == id
    &&& b.title@ == (match as_str(member(item, "title"@)) {
        Some(t) => t,
        None => "Untitled"@,
    })
    &&& strs(b.authors@) == (match as_array(member(item, "authors"@)) {
        Some(a) => name_items(a),
        None => Seq::empty(),
    })
    &&& b.description is None
    &&& opt_view(b.language) == (match as_array(member(item, "languages"@)) {
        Some(a) => if a.len() > 0 {
            as_str(Some(a[0]))
        } else {
            None
        },
        None => None,
    })
    &&& b.published is None
    &&& strs(b.subjects@) == (match as_array(member(item, "subjects"@)) {
        Some(a) => string_items(a),
        None => Seq::empty(),
    })
    &&& opt_view(b.cover_url) == (match formats_of(item) {
        Some(f) => as_str(entry_value(f, "image/jpeg"@)),
        None => None,
    })
    &&& spec_download_url(item) == Some(b.download_url@)
    &&& opt_view(b.source_url) == Some("https://www.gutenberg.org/ebooks/"@ + id)
    &&& b.license_label@ == "Public domain — Project Gutenberg"@
}

/// The search results that carry an EPUB download, in order.
pub open spec fn downloadable(items: Seq<Json>) -> Seq<Json>
    decreases items.len(),
{
    if items.len() == 0 {
        Seq::empty()
    } else {
        let rest = downloadable(items.drop_last());
        if spec_download_url(items.last()) is Some {
            rest.push(items.last())
        } else {
            rest
        }
    }
}

/// The results of a search response that are considered: at most the first 20.
pub open spec fn considered_results(response: Json) -> Seq<Json> {
    match as_array(member(response, "results"@)) {
        Some(items) => if items.len() <= 20 {
            items
        } else {
            items.take(20)
        },
        None => Seq::empty(),
    }
}

proof fn lemma_downloadable_len(items: Seq<Json>)
    ensures
        downloadable(items).len() <= items.len(),
    decreases items.len(),
{
    if items.len() > 0 {
        lemma_downloadable_len(items.drop_last());
    }
}

/// A catalog page lists at most 20 books, each with an EPUB download.
pub proof fn lemma_catalog_page_bounded(response: Json)
    ensures
        downloadable(considered_results(response)).len() <= 20,
        forall|k: int|
            0 <= k < downloadable(considered_results(response)).len() ==> spec_download_url(
                #[trigger] downloadable(considered_results(response))[k],
            ) is Some,
{
    lemma_downloadable_len(considered_results(response));
    lemma_downloadable_have_urls(considered_results(response));
}

proof fn lemma_downloadable_have_urls(items: Seq<Json>)
    ensures
        forall|k: int| 0 <= k < downloadable(items).len() ==> spec_download_url(#[trigger] downloadable(items)[k]) is Some,
    decreases items.len(),
{
    if items.len() > 0 {
        lemma_downloadable_have_urls(items.drop_last());
        let rest = downloadable(items.drop_last());
        if spec_download_url(items.last()) is Some {
            assert forall|k: int| 0 <= k < downloadable(items).len() implies spec_download_url(#[trigger] downloadable(items)[k]) is Some by {
                if k < rest.len() {
                    assert(downloadable(items)[k] == rest[k]);
                }
            }
        }
    }
}

fn any_epub_url_exec(entries: &Vec<(String, Json)>) -> (r: Option<String>)
    ensures
        match r {
            Some(u) => any_epub_url(entries@) == Some(u@),
            None => any_epub_url(entries@) is None,
        },
{
    let epub = to_chars("epub");
    let mut i: usize = 0;
    assert(entries@.skip(0) =~= entries@);
    while i < entries.len()
        invariant
            i <= entries@.len(),
            epub@ == "epub"@,
            any_epub_url(entries@) == any_epub_url(entries@.skip(i as int)),
        decreases entries@.len() - i,
    {
        assert(entries@.skip(i as int).drop_first() =~= entries@.skip(i + 1));
        assert(entries@.skip(i as int)[0] == entries@[i as int]);
        let key = to_chars(entries[i].0.as_str());
        if crate::text::contains_chars(key.as_slice(), epub.as_slice()) {
            match &entries[i].1 {
                Json::String(u) => return Some(u.clone()),
                _ => {},
            }
        }
        i = i + 1;
    }
    assert(entries@.skip(i as int).len() == 0);
    None
}

fn download_url_of(item: &Json) -> (r: Option<String>)
    ensures
        match r {
            Some(u) => spec_download_url(*item) == Some(u@),
            None => spec_download_url(*item) is None,
        },
{
    match get_member(item, "formats") {
        Some(Json::Object(entries)) => {
            let a = to_chars("application/epub+zip");
            match find_entry(entries, a.as_slice()) {
                Some(i) => match &entries[i].1 {
                    Json::String(u) => return Some(u.clone()),
                    _ => {},
                },
                None => {},
            }
            let b = to_chars("application/epub3+zip");
            match find_entry(entries, b.as_slice()) {
                Some(i) => match &entries[i].1 {
                    Json::String(u) => return Some(u.clone()),
                    _ => {},
                },
                None => {},
            }
            any_epub_url_exec(entries)
        },
        _ => None,
    }
}

fn string_items_exec(items: &Vec<Json>) -> (r: Vec<String>)
    ensures
        strs(r@) == string_items(items@),
{
    let mut r: Vec<String> = Vec::new();
    let mut i: usize = 0;
    assert(items@.take(0) =~= Seq::<Json>::empty());
    assert(strs(r@) =~= Seq::<Seq<char>>::empty());
    while i < items.len()
        invariant
            i <= items@.len(),
            strs(r@) == string_items(items@.take(i as int)),
        decreases items@.len() - i,
    {
        assert(items@.take(i + 1).drop_last() =~= items@.take(i as int));
        assert(items@.take(i + 1).last() == items@[i as int]);
        match &items[i] {
            Json::String(s) => {
                let c = s.clone();
                proof {
                    lemma_strs_push(r@, c);
                }
                r.push(c);
            },
            _ => {},
        }
        i = i + 1;
    }
    assert(items@.take(items@.len() as int) =~= items@);
    r
}

fn name_items_exec(items: &Vec<Json>) -> (r: Vec<String>)
    ensures
        strs(r@) == name_items(items@),
{
    let mut r: Vec<String> = Vec::new();
    let mut i: usize = 0;
    assert(items@.take(0) =~= Seq::<Json>::empty());
    assert(strs(r@) =~= Seq::<Seq<char>>::empty());
    while i < items.len()
        invariant
            i <= items@.len(),
            strs(r@) == name_items(items@.take(i as int)),
        decreases items@.len() - i,
    {
        assert(items@.take(i + 1).drop_last() =~= items@.take(i as int));
        assert(items@.take(i + 1).last() == items@[i as int]);
        match str_of(get_member(&items[i], "name")) {
            Some(c) => {
                proof {
                    lemma_strs_push(r@, c);
                }
                r.push(c);
            },
            None => {},
        }
        i = i + 1;
    }
    assert(items@.take(items@.len() as int) =~= items@);
    r
}

fn catalog_book(item: &Json, download_url: String) -> (b: CatalogBookDto)
    requires
        spec_download_url(*item) == Some(download_url@),
    ensures
        catalog_from(b, *item),
{
    let id_value: i64 = match get_member(item, "id") {
        Some(Json::Number(Some(n))) => *n,
        _ => 0,
    };
    let id = crate::text::i64_to_string(id_value);
    let title = match str_of(get_member(item, "title")) {
        Some(t) => t,
        None => "Untitled".to_owned(),
    };
    let authors = match get_member(item, "authors") {
        Some(Json::Array(a)) => name_items_exec(a),
        _ => {
            let v: Vec<String> = Vec::new();
            assert(strs(v@) =~= Seq::<Seq<char>>::empty());
            v
        },
    };
    let language = match get_member(item, "languages") {
        Some(Json::Array(a)) => if a.len() > 0 {
            match &a[0] {
                Json::String(s) => Some(s.clone()),
                _ => None,
            }
        } else {
            None
        },
        _ => None,
    };
    let subjects = match get_member(item, "subjects") {
        Some(Json::Array(a)) => string_items_exec(a),
        _ => {
            let v: Vec<String> = Vec::new();
            assert(strs(v@) =~= Seq::<Seq<char>>::empty());
            v
        },
    };
    let cover_url = match get_member(item, "formats") {
        Some(Json::Object(entries)) => {
            let k = to_chars("image/jpeg");
            match find_entry(entries, k.as_slice()) {
                Some(i) => match &entries[i].1 {
                    Json::String(u) => Some(u.clone()),
                    _ => None,
                },
                None => None,
            }
        },
        _ => None,
    };
    let mut source = to_chars("https://www.gutenberg.org/ebooks/");
    source.extend_from_slice(to_chars(id.as_str()).as_slice());
    let source_url = string_of(source.as_slice());
    let b = CatalogBookDto {
        provider: "Project Gutenberg".to_owned(),
        provider_id: id,
        title,
        authors,
        description: None,
        language,
        published: None,
        subjects,
        cover_url,
        download_url,
        source_url: Some(source_url),
        license_label: "Public domain — Project Gutenberg".to_owned(),
    };
    assert(b.provider_id@ == spec_item_id(*item));
    assert(b.title@ == (match as_str(member(*item, "title"@)) {
        Some(t) => t,
        None => "Untitled"@,
    }));
    assert(opt_view(b.language) == (match as_array(member(*item, "languages"@)) {
        Some(a) => if a.len() > 0 {
            as_str(Some(a[0]))
        } else {
            None
        },
        None => None,
    }));
    assert(opt_view(b.cover_url) == (match formats_of(*item) {
        Some(f) => as_str(entry_value(f, "image/jpeg"@)),
        None => None,
    }));
    assert(opt_view(b.source_url) == Some("https://www.gutenberg.org/ebooks/"@ + spec_item_id(*item)));
    b
}

/// What a Project Gutenberg (Gutendex) search response holds: one catalog
/// book for each of the first 20 results that offers an EPUB, and the next
/// page's number when the response links one.
pub fn gutenberg_results(response: &Json, page: u32) -> (r: (Vec<CatalogBookDto>, Option<u32>))
    requires
        page < u32::MAX,
    ensures
        r.0@.len() == downloadable(considered_results(*response)).len(),
        forall|k: int| 0 <= k < r.0@.len() ==> catalog_from(#[trigger] r.0@[k], downloadable(considered_results(*response))[k]),
        r.1 == (if as_str(member(*response, "next"@)) is Some { Some((page + 1) as u32) } else { None::<u32> }),
{
    let mut out: Vec<CatalogBookDto> = Vec::new();
    let empty: Vec<Json> = Vec::new();
    let items: &Vec<Json> = match get_member(response, "results") {
        Some(Json::Array(items)) => items,
        _ => &empty,
    };
    let ghost all = considered_results(*response);
    assert(items@.len() <= 20 ==> all =~= items@);
    assert(items@.len() > 20 ==> all =~= items@.take(20));
    let limit: usize = if items.len() <= 20 { items.len() } else { 20 };
    let mut i: usize = 0;
    assert(all.take(0) =~= Seq::<Json>::empty());
    while i < limit
        invariant
            limit == all.len(),
            limit <= items@.len(),
            forall|q: int| 0 <= q < limit ==> all[q] == items@[q],
            i <= limit,
            out@.len() == downloadable(all.take(i as int)).len(),
            forall|k: int| 0 <= k < out@.len() ==> catalog_from(#[trigger] out@[k], downloadable(all.take(i as int))[k]),
        decreases limit - i,
    {
        assert(all.take(i + 1).drop_last() =~= all.take(i as int));
        assert(all.take(i + 1).last() == items@[i as int]);
        let item = &items[i];
        match download_url_of(item) {
            Some(url) => {
                let book = catalog_book(item, url);
                out.push(book);
            },
            None => {},
        }
        i = i + 1;
    }
    assert(all.take(limit as int) =~= all);
    let next = match get_member(response, "next") {
        Some(Json::String(_)) => Some(page + 1),
        _ => None,
    };
    (out, next)
}


/// The scheme and host that `Url::parse` finds in `text`, or `None` when
/// it is not a URL.
pub uninterp spec fn url_parts(text: Seq<char>) -> Option<(Seq<char>, Option<Seq<char>>)>;

/// `Url::parse` (the `url` crate, as `reqwest` re-exports it), keeping the
/// URL's `scheme()` and `host_str()`. Claims: the result is the one named
/// by `url_parts`.
#[verifier::external_body]
fn parse_url(text: &str) -> (r: Option<(String, Option<String>)>)
    ensures
        match r {
            Some((scheme, host)) => url_parts(text@) == Some((scheme@, opt_view(host))),
            None => url_parts(text@) is None,
        },
{
    match reqwest::Url::parse(text) {
        Ok(url) => Some((url.scheme().to_string(), url.host_str().map(str::to_string))),
        Err(_) => None,
    }
}

/// The hosts from which books may be downloaded.
pub open spec fn approved_host(host: Seq<char>) -> bool {
    host == "gutendex.com"@ || host == "gutenberg.org"@ || host == "www.gutenberg.org"@ || host
        == "standardebooks.org"@ || host == "www.standardebooks.org"@
}

pub open spec fn spec_allowed_url(scheme: Seq<char>, host: Option<Seq<char>>) -> bool {
    scheme == "https"@ && (match host {
        Some(h) => approved_host(h),
        None => approved_host(Seq::empty()),
    })
}

/// `allowed_url`: whether a URL with this scheme and host may be fetched:
/// HTTPS to Project Gutenberg, Gutendex or Standard Ebooks only.
pub fn allowed_url(scheme: &str, host: Option<&str>) -> (r: bool)
    ensures
        r == spec_allowed_url(scheme@, match host {
            Some(h) => Some(h@),
            None => None,
        }),
{
    let s = to_chars(scheme);
    if !chars_eq(s.as_slice(), to_chars("https").as_slice()) {
        return false;
    }
    let h = match host {
        Some(h) => to_chars(h),
        None => {
            let v: Vec<char> = Vec::new();
            v
        },
    };
    proof {
        reveal_strlit("gutendex.com");
        reveal_strlit("gutenberg.org");
        reveal_strlit("www.gutenberg.org");
        reveal_strlit("standardebooks.org");
        reveal_strlit("www.standardebooks.org");
    }
    let hs = h.as_slice();
    chars_eq(hs, to_chars("gutendex.com").as_slice()) || chars_eq(hs, to_chars("gutenberg.org").as_slice())
        || chars_eq(hs, to_chars("www.gutenberg.org").as_slice()) || chars_eq(
        hs,
        to_chars("standardebooks.org").as_slice(),
    ) || chars_eq(hs, to_chars("www.standardebooks.org").as_slice())
}

pub open spec fn spec_validate_download_url(value: Seq<char>) -> Result<(), ErrorView> {
    match url_parts(value) {
        None => Err(ErrorView::BadRequest("Invalid download URL"@)),
        Some((scheme, host)) => if spec_allowed_url(scheme, host) {
            Ok(())
        } else {
            Err(ErrorView::BadRequest("Download host is not approved"@))
        },
    }
}

/// `validate_download_url`: accepts only URLs that `allowed_url` approves.
pub fn validate_download_url(value: &str) -> (r: Result<(), AppError>)
    ensures
        match r {
            Ok(()) => spec_validate_download_url(value@) == Ok::<(), ErrorView>(()),
            Err(e) => spec_validate_download_url(value@) == Err::<(), ErrorView>(e@),
        },
{
    match parse_url(value) {
        None => Err(bad_request("Invalid download URL")),
        Some((scheme, host)) => {
            let h = match &host {
                Some(h) => Some(h.as_str()),
                None => None,
            };
            if allowed_url(scheme.as_str(), h) {
                Ok(())
            } else {
                Err(bad_request("Download host is not approved"))
            }
        },
    }
}

/// Whether text is shorter than two bytes of UTF-8: empty, or one ASCII
/// character (any other character takes at least two bytes).
pub open spec fn under_two_bytes(t: Seq<char>) -> bool {
    t.len() == 0 || (t.len() == 1 && t[0] <= '\u{7f}')
}

/// The query that a catalog search sends: trimmed, at least two bytes long.
pub fn search_query(query: &str) -> (r: Result<String, AppError>)
    ensures
        match r {
            Ok(q) => q@ == trim(query@) && !under_two_bytes(trim(query@)),
            Err(e) => under_two_bytes(trim(query@)) && e@ == ErrorView::BadRequest(
                "Enter at least two characters"@,
            ),
        },
{
    let t = trim_chars(to_chars(query).as_slice());
    let q = string_of(t.as_slice());
    if t.len() == 0 || (t.len() == 1 && t[0] <= '\u{7f}') {
        Err(bad_request("Enter at least two characters"))
    } else {
        Ok(q)
    }
}

/// How many times a catalog search is tried.
pub const SEARCH_ATTEMPTS: u32 = 2;

/// The error of a search attempt that took longer than twelve seconds.
pub fn search_timed_out() -> (e: AppError)
    ensures
        e@ == ErrorView::Internal("Project Gutenberg took too long to respond. Please try again."@),
{
    AppError::Internal("Project Gutenberg took too long to respond. Please try again.".to_owned())
}

/// The error of a search whose attempts all failed: the last attempt's,
/// or a general one when there was none.
pub fn search_failure(last: Option<AppError>) -> (e: AppError)
    ensures
        match last {
            Some(l) => e@ == l@,
            None => e@ == ErrorView::Internal(
                "Project Gutenberg is temporarily unavailable. Please try again."@,
            ),
        },
{
    match last {
        Some(l) => l,
        None => AppError::Internal("Project Gutenberg is temporarily unavailable. Please try again.".to_owned()),
    }
}

/// The page of catalog results to fetch: pages count from 1.
pub fn search_page(page: u32) -> (r: u32)
    ensures
        r == (if page < 1 { 1 } else { page }),
{
    if page < 1 {
        1
    } else {
        page
    }
}


pub const MAX_EPUB_BYTES: u64 = 200 * 1024 * 1024;

/// A job that has finished, one way or another.
pub open spec fn is_finished(status: Seq<char>) -> bool {
    status == "completed"@ || status == "failed"@ || status == "cancelled"@
}

/// The statuses of a job that is under way.
pub open spec fn is_active(status: Seq<char>) -> bool {
    status == "queued"@ || status == "downloading"@ || status == "verifying"@ || status
        == "importing"@ || status == "indexing"@
}

/// A status change: the new status and its message.
#[derive(Debug)]
pub struct StatusChange {
    pub status: String,
    pub message: String,
}

pub open spec fn change_is(c: StatusChange, status: Seq<char>, message: Seq<char>) -> bool {
    c.status@ == status && c.message@ == message
}

fn change(status: &str, message: &str) -> (c: StatusChange)
    ensures
        change_is(c, status@, message@),
{
    StatusChange { status: status.to_owned(), message: message.to_owned() }
}

fn status_is(status: &str, expected: &str) -> (r: bool)
    ensures
        r == (status@ == expected@),
{
    chars_eq(to_chars(status).as_slice(), to_chars(expected).as_slice())
}

/// Pausing a job: a queued job becomes paused; a running one is told to
/// pause and records it itself; others stay as they are.
pub fn pause_change(status: &str) -> (r: Option<StatusChange>)
    ensures
        match r {
            Some(c) => status@ == "queued"@ && change_is(c, "paused"@, "Paused"@),
            None => status@ != "queued"@,
        },
{
    if status_is(status, "queued") {
        Some(change("paused", "Paused"))
    } else {
        None
    }
}

/// Cancelling a job: any job that has not finished becomes cancelled.
pub fn cancel_change(status: &str) -> (r: Option<StatusChange>)
    ensures
        match r {
            Some(c) => !is_finished(status@) && change_is(c, "cancelled"@, "Cancelled"@),
            None => is_finished(status@),
        },
{
    if status_is(status, "completed") || status_is(status, "failed") || status_is(status, "cancelled") {
        None
    } else {
        Some(change("cancelled", "Cancelled"))
    }
}

/// The statuses from which a job can be resumed.
pub open spec fn resumable(status: Seq<char>) -> bool {
    status == "paused"@ || status == "failed"@
}

pub open spec fn resume_refused() -> ErrorView {
    ErrorView::BadRequest("Only paused or failed downloads can be resumed"@)
}

/// Resuming a job: only a paused or failed job is queued again.
pub fn resume_change(status: &str) -> (r: Result<StatusChange, AppError>)
    ensures
        match r {
            Ok(c) => resumable(status@) && change_is(c, "queued"@, "Waiting to download"@),
            Err(e) => !resumable(status@) && e@ == resume_refused(),
        },
{
    if status_is(status, "paused") || status_is(status, "failed") {
        Ok(change("queued", "Waiting to download"))
    } else {
        Err(bad_request("Only paused or failed downloads can be resumed"))
    }
}

/// A job found under way when the server starts was interrupted: it is
/// paused, to be resumed by hand.
pub fn interrupted_change(status: &str) -> (r: Option<StatusChange>)
    ensures
        match r {
            Some(c) => is_active(status@) && change_is(c, "paused"@, "Interrupted when sTori closed. Resume when ready."@),
            None => !is_active(status@),
        },
{
    if status_is(status, "queued") || status_is(status, "downloading") || status_is(status, "verifying")
        || status_is(status, "importing") || status_is(status, "indexing") {
        Some(change("paused", "Interrupted when sTori closed. Resume when ready."))
    } else {
        None
    }
}

/// Whether a download that stopped with an error is recorded as failed:
/// only when it was neither paused nor cancelled on purpose.
pub fn records_failure(paused: bool, cancelled: bool) -> (r: bool)
    ensures
        r == (!paused && !cancelled),
{
    !paused && !cancelled
}

/// A finished job is never under way.
pub proof fn lemma_finished_not_active(status: Seq<char>)
    requires
        is_finished(status),
    ensures
        !is_active(status),
{
    reveal_strlit("completed");
    reveal_strlit("failed");
    reveal_strlit("cancelled");
    reveal_strlit("queued");
    reveal_strlit("downloading");
    reveal_strlit("verifying");
    reveal_strlit("importing");
    reveal_strlit("indexing");
    assert(status[0] == 'c' || status[0] == 'f');
    assert("queued"@[0] == 'q');
    assert("downloading"@[0] == 'd');
    assert("verifying"@[0] == 'v');
    assert("importing"@[0] == 'i');
    assert("indexing"@[0] == 'i');
}

/// A cancelled job is finished, so cancelling it again changes nothing,
/// and it cannot be resumed; a job paused by hand or by a restart can.
pub proof fn lemma_cancelled_is_final()
    ensures
        is_finished("cancelled"@),
        !resumable("cancelled"@),
        resumable("paused"@),
{
    reveal_strlit("cancelled");
    reveal_strlit("paused");
    reveal_strlit("failed");
    assert("cancelled"@.len() != "paused"@.len());
    assert("cancelled"@.len() != "failed"@.len());
}

/// Where a download resumes and how large it will be: a partial file is
/// extended only when the server honours the range request.
pub open spec fn spec_window(existing: u64, partial_content: bool, content_length: Option<u64>) -> (u64, int) {
    let start: u64 = if existing > 0 && partial_content { existing } else { 0 };
    (start, start + match content_length {
        Some(n) => n as int,
        None => 0,
    })
}

pub open spec fn too_large() -> ErrorView {
    ErrorView::BadRequest("EPUB is larger than the 200 MB safety limit"@)
}

/// The byte range requested when a partial file exists: `bytes=N-`.
pub fn range_header(existing: u64) -> (r: Option<String>)
    ensures
        match r {
            Some(h) => existing > 0 && h@ == "bytes="@ + crate::text::dec_nat(existing as nat) + seq!['-'],
            None => existing == 0,
        },
{
    if existing == 0 {
        return None;
    }
    let mut v = to_chars("bytes=");
    v.extend_from_slice(crate::text::u64_digits(existing).as_slice());
    v.push('-');
    Some(string_of(v.as_slice()))
}

/// The offset and total size of a download, refused beyond 200 MB.
pub fn transfer_window(existing: u64, partial_content: bool, content_length: Option<u64>) -> (r: Result<(u64, u64), AppError>)
    requires
        spec_window(existing, partial_content, content_length).1 <= u64::MAX,
    ensures
        match r {
            Ok((start, total)) => start == spec_window(existing, partial_content, content_length).0
                && total == spec_window(existing, partial_content, content_length).1 && total <= MAX_EPUB_BYTES,
            Err(e) => spec_window(existing, partial_content, content_length).1 > MAX_EPUB_BYTES && e@ == too_large(),
        },
{
    let start: u64 = if existing > 0 && partial_content { existing } else { 0 };
    let length: u64 = match content_length {
        Some(n) => n,
        None => 0,
    };
    let total: u64 = start + length;
    if total > MAX_EPUB_BYTES {
        Err(bad_request("EPUB is larger than the 200 MB safety limit"))
    } else {
        Ok((start, total))
    }
}

pub const MIB: u64 = 1024 * 1024;

/// The free space an import needs: what is left to download plus 16 MB.
pub open spec fn required_space(total: u64, start: u64) -> int {
    (if total >= start { total - start } else { 0 }) + 16 * 1024 * 1024
}

pub open spec fn no_space(total: u64, start: u64) -> ErrorView {
    ErrorView::BadRequest("Not enough disk space. sTori needs about "@ + crate::text::dec_nat(
        ((required_space(total, start) + 1048575) as nat) / 1048576nat,
    ) + " MB free to finish this import."@)
}

/// Whether the library's disk has room for the import; the error names
/// the space needed in whole megabytes, rounded up.
pub fn check_space(total: u64, start: u64, available: u64) -> (r: Result<(), AppError>)
    requires
        total <= MAX_EPUB_BYTES,
    ensures
        match r {
            Ok(()) => available >= required_space(total, start),
            Err(e) => available < required_space(total, start) && e@ == no_space(total, start),
        },
{
    let remaining: u64 = if total >= start { total - start } else { 0 };
    let required: u64 = remaining + 16 * MIB;
    if available < required {
        let mb: u64 = (required + MIB - 1) / MIB;
        assert(required == required_space(total, start));
        assert(mb == ((required_space(total, start) + 1048575) as nat) / 1048576nat);
        let mut v = to_chars("Not enough disk space. sTori needs about ");
        let digits = crate::text::u64_digits(mb);
        v.extend_from_slice(digits.as_slice());
        let tail = to_chars(" MB free to finish this import.");
        v.extend_from_slice(tail.as_slice());
        assert(v@ == "Not enough disk space. sTori needs about "@ + crate::text::dec_nat(mb as nat)
            + " MB free to finish this import."@);
        let e = AppError::BadRequest(string_of(v.as_slice()));
        assert(e@ == no_space(total, start));
        Err(e)
    } else {
        Ok(())
    }
}

/// The progress of a transfer: bytes received so far, and when and at how
/// many bytes the job's record was last updated.
#[derive(Debug, PartialEq, Eq, Structural)]
pub struct TransferState {
    pub downloaded: u64,
    pub persisted_bytes: u64,
    pub persisted_at_ms: u64,
}

/// What to do with the next chunk of a transfer.
#[derive(Debug, PartialEq, Eq, Structural)]
pub enum TransferAction {
    /// The job was cancelled: drop the partial file.
    Cancel,
    /// The job was paused: flush and record the progress.
    Pause,
    /// The chunk would take the file beyond 200 MB.
    TooLarge,
    /// Write the chunk; record the progress when `persist` holds.
    Write { persist: bool },
}

pub const PERSIST_BYTES: u64 = 512 * 1024;
pub const PERSIST_MS: u64 = 300;

/// A transfer state that the machine can be in: within the size limit,
/// with the recorded progress behind the real one by less than 512 KiB.
pub open spec fn transfer_wf(s: TransferState) -> bool {
    s.downloaded <= MAX_EPUB_BYTES && s.persisted_bytes <= s.downloaded && s.downloaded
        - s.persisted_bytes < PERSIST_BYTES
}

/// One step of a transfer, given the job's cancel and pause flags, the
/// length of the chunk that arrived, and the clock.
pub open spec fn spec_transfer_step(s: TransferState, cancel: bool, pause: bool, len: u64, now_ms: u64) -> (TransferState, TransferAction) {
    if cancel {
        (s, TransferAction::Cancel)
    } else if pause {
        (s, TransferAction::Pause)
    } else if s.downloaded + len > MAX_EPUB_BYTES {
        (s, TransferAction::TooLarge)
    } else {
        let d = (s.downloaded + len) as u64;
        let persist = (now_ms >= s.persisted_at_ms && now_ms - s.persisted_at_ms >= PERSIST_MS) || d
            - s.persisted_bytes >= PERSIST_BYTES;
        if persist {
            (TransferState { downloaded: d, persisted_bytes: d, persisted_at_ms: now_ms }, TransferAction::Write { persist: true })
        } else {
            (TransferState { downloaded: d, ..s }, TransferAction::Write { persist: false })
        }
    }
}

impl TransferState {
    /// The state of a transfer that starts at byte `start`, recorded now.
    pub fn new(start: u64, now_ms: u64) -> (s: TransferState)
        requires
            start <= MAX_EPUB_BYTES,
        ensures
            s.downloaded == start && s.persisted_bytes == start && s.persisted_at_ms == now_ms,
            transfer_wf(s),
    {
        TransferState { downloaded: start, persisted_bytes: start, persisted_at_ms: now_ms }
    }

    /// Takes one step of the transfer.
    pub fn step(&mut self, cancel: bool, pause: bool, len: u64, now_ms: u64) -> (a: TransferAction)
        requires
            transfer_wf(*old(self)),
        ensures
            (*final(self), a) == spec_transfer_step(*old(self), cancel, pause, len, now_ms),
            transfer_wf(*final(self)),
    {
        proof {
            lemma_transfer_step_keeps_wf(*old(self), cancel, pause, len, now_ms);
        }
        if cancel {
            return TransferAction::Cancel;
        }
        if pause {
            return TransferAction::Pause;
        }
        if len > MAX_EPUB_BYTES - self.downloaded {
            return TransferAction::TooLarge;
        }
        let d = self.downloaded + len;
        let elapsed_ok = now_ms >= self.persisted_at_ms && now_ms - self.persisted_at_ms >= PERSIST_MS;
        let persist = elapsed_ok || d - self.persisted_bytes >= PERSIST_BYTES;
        self.downloaded = d;
        if persist {
            self.persisted_bytes = d;
            self.persisted_at_ms = now_ms;
        }
        TransferAction::Write { persist }
    }
}

/// Every step keeps the transfer within 200 MB and its record less than
/// 512 KiB behind; a write never takes the file beyond the limit.
pub proof fn lemma_transfer_step_keeps_wf(s: TransferState, cancel: bool, pause: bool, len: u64, now_ms: u64)
    requires
        transfer_wf(s),
    ensures
        transfer_wf(spec_transfer_step(s, cancel, pause, len, now_ms).0),
        spec_transfer_step(s, cancel, pause, len, now_ms).1 is Write ==> spec_transfer_step(
            s,
            cancel,
            pause,
            len,
            now_ms,
        ).0.downloaded == s.downloaded + len,
{
}

} // verus!
