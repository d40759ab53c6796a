//! Structural validation of EPUB archives before they are imported.

use crate::error::{bad_request, AppError, ErrorView};
use crate::paths::{normalize_chars, resolve_chars, spec_normalize, spec_resolve};
use crate::text::{
    contains_piece, ends_with, ends_with_chars, lower, to_chars, to_lower, trim, trim_chars,
    utf8_string, views, string_of, chars_eq,
};
use crate::xml::{attr, attribute, is_named, node_is_named, parse_xml, xml_document, XmlNode};
use crate::zipfile::{
    entry_named, zip_entries, zip_entry_at, zip_entry_named, zip_len, zip_open, zip_parse,
    zip_read_named, ZipEntryModel, ZipReadFailure,
};
use std::io::Cursor;
use vstd::prelude::*;
use zip::ZipArchive;

verus! {

pub const MAX_ENTRIES: usize = 5_000;
pub const MAX_TOTAL_EXPANDED_BYTES: u64 = 250 * 1024 * 1024;
pub const MAX_ENTRY_BYTES: u64 = 32 * 1024 * 1024;
pub const MAX_COMPRESSION_RATIO: u64 = 100;
pub const MAX_XML_BYTES: usize = 4 * 1024 * 1024;
pub const MAX_XHTML_BYTES: u64 = 8 * 1024 * 1024;
pub const MAX_CSS_BYTES: u64 = 2 * 1024 * 1024;
pub const MAX_RESOURCE_BYTES: u64 = 25 * 1024 * 1024;

/// An archive that passed validation: where its package document is, and
/// what was accepted with a warning.
#[derive(Debug)]
pub struct ValidatedEpub {
    pub opf_path: String,
    pub warnings: Vec<String>,
}

pub open spec fn invalid_archive() -> ErrorView {
    ErrorView::BadRequest("This file is not a valid EPUB archive."@)
}

pub open spec fn limit_exceeded() -> ErrorView {
    ErrorView::BadRequest("This EPUB exceeds sTori’s safe import limits."@)
}

pub open spec fn conflicting_paths() -> ErrorView {
    ErrorView::BadRequest("The EPUB contains conflicting archive paths."@)
}

pub open spec fn encrypted_epub() -> ErrorView {
    ErrorView::BadRequest("This EPUB is encrypted and is not supported."@)
}

pub open spec fn missing_file() -> ErrorView {
    ErrorView::BadRequest("The EPUB is missing a required file."@)
}

pub open spec fn invalid_text() -> ErrorView {
    ErrorView::BadRequest("The EPUB contains invalid text data."@)
}

pub open spec fn container_missing() -> ErrorView {
    ErrorView::BadRequest("The EPUB is missing or has an invalid container document."@)
}

pub open spec fn container_invalid() -> ErrorView {
    ErrorView::BadRequest("The EPUB has an invalid container document."@)
}

pub open spec fn package_missing() -> ErrorView {
    ErrorView::BadRequest("The EPUB is missing its package document."@)
}

pub open spec fn package_invalid() -> ErrorView {
    ErrorView::BadRequest("The EPUB has an invalid package document."@)
}

pub open spec fn manifest_invalid() -> ErrorView {
    ErrorView::BadRequest("The EPUB has an invalid manifest."@)
}

pub open spec fn reading_order_broken() -> ErrorView {
    ErrorView::BadRequest("The EPUB has a broken reading order."@)
}

pub open spec fn no_reading_order_warning() -> Seq<char> {
    "The EPUB has no declared reading order."@
}

/// Two errors agree: equal, except that a file error's message (the
/// decompressor's own words) is not pinned down.
pub open spec fn same_error(actual: ErrorView, expected: ErrorView) -> bool {
    match expected {
        ErrorView::Io(_) => actual is Io,
        _ => actual == expected,
    }
}

/// Whether a lower-cased name is an image or font resource.
pub open spec fn spec_is_resource(name: Seq<char>) -> bool {
    ||| ends_with(name, ".png"@)
    ||| ends_with(name, ".jpg"@)
    ||| ends_with(name, ".jpeg"@)
    ||| ends_with(name, ".gif"@)
    ||| ends_with(name, ".webp"@)
    ||| ends_with(name, ".svg"@)
    ||| ends_with(name, ".woff"@)
    ||| ends_with(name, ".woff2"@)
    ||| ends_with(name, ".ttf"@)
    ||| ends_with(name, ".otf"@)
}

pub open spec fn sat_add(a: u64, b: u64) -> u64 {
    if a + b > u64::MAX {
        u64::MAX
    } else {
        (a + b) as u64
    }
}

/// The size checks on one file entry whose normalized name is `name`, given
/// the expanded total so far; the new total when they pass.
pub open spec fn file_limits(name: Seq<char>, size: u64, compressed: u64, total: u64) -> Option<u64> {
    let lowered = lower(name);
    let new_total = sat_add(total, size);
    if size > MAX_ENTRY_BYTES {
        None
    } else if new_total > MAX_TOTAL_EXPANDED_BYTES {
        None
    } else if compressed > 0 && size / compressed > MAX_COMPRESSION_RATIO {
        None
    } else if (ends_with(lowered, ".xhtml"@) || ends_with(lowered, ".html"@)) && size
        > MAX_XHTML_BYTES {
        None
    } else if ends_with(lowered, ".css"@) && size > MAX_CSS_BYTES {
        None
    } else if spec_is_resource(lowered) && size > MAX_RESOURCE_BYTES {
        None
    } else {
        Some(new_total)
    }
}

/// One entry of the archive walk: the names seen so far and the expanded
/// total, updated by entry `e` or refused.
pub open spec fn entry_step(names: Seq<Seq<char>>, total: u64, e: ZipEntryModel) -> Result<
    (Seq<Seq<char>>, u64),
    ErrorView,
> {
    match e.info {
        None => Err(invalid_archive()),
        Some(info) => match spec_normalize(info.name@) {
            Err(err) => Err(err),
            Ok(name) => if names.contains(name) {
                Err(conflicting_paths())
            } else if info.encrypted {
                Err(encrypted_epub())
            } else if info.is_dir {
                Ok((names.push(name), total))
            } else {
                match file_limits(name, info.size, info.compressed_size, total) {
                    None => Err(limit_exceeded()),
                    Some(t) => Ok((names.push(name), t)),
                }
            },
        },
    }
}

/// The walk over all entries, in index order.
pub open spec fn scan_entries(entries: Seq<ZipEntryModel>) -> Result<(Seq<Seq<char>>, u64), ErrorView>
    decreases entries.len(),
{
    if entries.len() == 0 {
        Ok((Seq::empty(), 0))
    } else {
        match scan_entries(entries.drop_last()) {
            Err(e) => Err(e),
            Ok((names, total)) => entry_step(names, total, entries.last()),
        }
    }
}

/// `pieces[0]/pieces[1]/.../pieces[j-1]/`.
pub open spec fn piece_prefix(pieces: Seq<Seq<char>>, j: int) -> Seq<char>
    decreases j,
{
    if j <= 0 {
        Seq::empty()
    } else {
        piece_prefix(pieces, j - 1) + pieces[j - 1] + seq!['/']
    }
}

/// `s` without its trailing slashes.
pub open spec fn trim_slashes(s: Seq<char>) -> Seq<char>
    decreases s.len(),
{
    if s.len() > 0 && s.last() == '/' {
        trim_slashes(s.drop_last())
    } else {
        s
    }
}

/// Whether the parent path made of the first `j` pieces of name `i` is
/// itself one of the names.
pub open spec fn conflict_at(names: Seq<Seq<char>>, i: int, j: int) -> bool {
    names.contains(trim_slashes(piece_prefix(crate::text::split(names[i], '/'), j)))
}

/// Some name has one of its parent directories also present as a name.
pub open spec fn has_conflict(names: Seq<Seq<char>>) -> bool {
    exists|i: int, j: int|
        0 <= i < names.len() && 1 <= j < crate::text::split(names[i], '/').len()
            && #[trigger] conflict_at(names, i, j)
}

/// Reading entry `name` as text, with at most `max` expanded bytes.
pub open spec fn spec_read_text(entries: Seq<ZipEntryModel>, name: Seq<char>, max: u64) -> Result<Seq<char>, ErrorView> {
    match entry_named(entries, name) {
        Some(e) => match e.info {
            Some(info) => if info.size > max {
                Err(limit_exceeded())
            } else {
                match e.data {
                    None => Err(ErrorView::Io(Seq::empty())),
                    Some(d) => if vstd::utf8::valid_utf8(d) {
                        Ok(vstd::utf8::decode_utf8(d))
                    } else {
                        Err(invalid_text())
                    },
                }
            },
            None => Err(missing_file()),
        },
        None => Err(missing_file()),
    }
}


/// An error in the walk of a prefix is the error of the whole walk.
pub proof fn lemma_scan_error_persists(entries: Seq<ZipEntryModel>, k: int)
    requires
        0 <= k <= entries.len(),
        scan_entries(entries.take(k)) is Err,
    ensures
        scan_entries(entries) == scan_entries(entries.take(k)),
    decreases entries.len() - k,
{
    if k < entries.len() {
        assert(entries.take(k + 1).drop_last() =~= entries.take(k));
        lemma_scan_error_persists(entries, k + 1);
    } else {
        assert(entries.take(k) =~= entries);
    }
}

/// `is_resource`: whether a lower-cased name is an image or font.
pub fn is_resource(name: &str) -> (r: bool)
    ensures
        r == spec_is_resource(name@),
{
    let v = to_chars(name);
    resource_chars(v.as_slice())
}

fn ends_with_lit(v: &[char], suffix: &str) -> (r: bool)
    ensures
        r == ends_with(v@, suffix@),
{
    let s = to_chars(suffix);
    ends_with_chars(v, s.as_slice())
}

fn resource_chars(v: &[char]) -> (r: bool)
    ensures
        r == spec_is_resource(v@),
{
    ends_with_lit(v, ".png") || ends_with_lit(v, ".jpg") || ends_with_lit(v, ".jpeg")
        || ends_with_lit(v, ".gif") || ends_with_lit(v, ".webp") || ends_with_lit(v, ".svg")
        || ends_with_lit(v, ".woff") || ends_with_lit(v, ".woff2") || ends_with_lit(v, ".ttf")
        || ends_with_lit(v, ".otf")
}

/// `limit_error`: the error for an archive beyond the import limits.
pub fn limit_error() -> (e: AppError)
    ensures
        e@ == limit_exceeded(),
{
    bad_request("This EPUB exceeds sTori’s safe import limits.")
}

fn invalid_archive_error() -> (e: AppError)
    ensures
        e@ == invalid_archive(),
{
    bad_request("This file is not a valid EPUB archive.")
}

fn check_file_limits(name: &[char], size: u64, compressed: u64, total: u64) -> (r: Option<u64>)
    ensures
        r == file_limits(name@, size, compressed, total),
{
    let lowered = to_lower(name);
    let low = lowered.as_slice();
    let new_total: u64 = if size > u64::MAX - total {
        u64::MAX
    } else {
        total + size
    };
    if size > MAX_ENTRY_BYTES {
        None
    } else if new_total > MAX_TOTAL_EXPANDED_BYTES {
        None
    } else if compressed > 0 && size / compressed > MAX_COMPRESSION_RATIO {
        None
    } else if (ends_with_lit(low, ".xhtml") || ends_with_lit(low, ".html")) && size
        > MAX_XHTML_BYTES {
        None
    } else if ends_with_lit(low, ".css") && size > MAX_CSS_BYTES {
        None
    } else if resource_chars(low) && size > MAX_RESOURCE_BYTES {
        None
    } else {
        Some(new_total)
    }
}

/// Walks the archive's entries: every name must open, be safe, be unique
/// once normalized, be unencrypted, and stay within the size limits.
fn scan_archive(archive: &mut ZipArchive<Cursor<Vec<u8>>>) -> (r: Result<Vec<Vec<char>>, AppError>)
    ensures
        zip_entries(*final(archive)) == zip_entries(*old(archive)),
        match r {
            Ok(names) => scan_entries(zip_entries(*old(archive))) matches Ok((n, _)) && views(
                names@,
            ) == n,
            Err(e) => scan_entries(zip_entries(*old(archive))) == Err::<
                (Seq<Seq<char>>, u64),
                ErrorView,
            >(e@),
        },
{
    let n = zip_len(archive);
    let ghost entries = zip_entries(*archive);
    let mut names: Vec<Vec<char>> = Vec::new();
    let mut total: u64 = 0;
    let mut i: usize = 0;
    assert(entries.take(0) =~= Seq::<ZipEntryModel>::empty());
    assert(views(names@) =~= Seq::<Seq<char>>::empty());
    while i < n
        invariant
            zip_entries(*archive) == entries,
            entries == zip_entries(*old(archive)),
            n == entries.len(),
            i <= n,
            scan_entries(entries.take(i as int)) == Ok::<(Seq<Seq<char>>, u64), ErrorView>(
                (views(names@), total),
            ),
        decreases n - i,
    {
        assert(entries.take(i + 1).drop_last() =~= entries.take(i as int));
        assert(entries.take(i + 1).last() == entries[i as int]);
        let info = match zip_entry_at(archive, i) {
            Ok(info) => info,
            Err(_) => {
                proof {
                    lemma_scan_error_persists(entries, i + 1);
                }
                return Err(invalid_archive_error());
            },
        };
        let raw = to_chars(info.name.as_str());
        let name = match normalize_chars(raw.as_slice()) {
            Ok(name) => name,
            Err(e) => {
                proof {
                    lemma_scan_error_persists(entries, i + 1);
                }
                return Err(e);
            },
        };
        if contains_piece(&names, name.as_slice()) {
            proof {
                lemma_scan_error_persists(entries, i + 1);
            }
            return Err(bad_request("The EPUB contains conflicting archive paths."));
        }
        if info.encrypted {
            proof {
                lemma_scan_error_persists(entries, i + 1);
            }
            return Err(bad_request("This EPUB is encrypted and is not supported."));
        }
        if !info.is_dir {
            match check_file_limits(name.as_slice(), info.size, info.compressed_size, total) {
                None => {
                    proof {
                        lemma_scan_error_persists(entries, i + 1);
                    }
                    return Err(limit_error());
                },
                Some(t) => {
                    total = t;
                },
            }
        }
        let ghost before = views(names@);
        names.push(name);
        assert(views(names@) =~= before.push(name@));
        i = i + 1;
    }
    assert(entries.take(n as int) =~= entries);
    Ok(names)
}


/// The package path that the container's first `rootfile` element names.
pub open spec fn spec_rootfile(nodes: Seq<XmlNode>) -> Option<Seq<char>> {
    match crate::xml::first_where(nodes, |n: XmlNode| is_named(n, "rootfile"@)) {
        None => None,
        Some(n) => attr(n, "full-path"@),
    }
}

/// The target of manifest item `id`, if it is declared.
pub open spec fn manifest_lookup(m: Seq<(Seq<char>, Seq<char>)>, id: Seq<char>) -> Option<Seq<char>>
    decreases m.len(),
{
    if m.len() == 0 {
        None
    } else if m[0].0 == id {
        Some(m[0].1)
    } else {
        manifest_lookup(m.drop_first(), id)
    }
}

/// One node of the package document read as a manifest item.
pub open spec fn manifest_step(m: Seq<(Seq<char>, Seq<char>)>, n: XmlNode, opf: Seq<char>) -> Result<
    Seq<(Seq<char>, Seq<char>)>,
    ErrorView,
> {
    if !is_named(n, "item"@) {
        Ok(m)
    } else {
        match attr(n, "id"@) {
            None => Err(manifest_invalid()),
            Some(id) => if trim(id).len() == 0 {
                Err(manifest_invalid())
            } else {
                match attr(n, "href"@) {
                    None => Err(manifest_invalid()),
                    Some(href) => if trim(href).len() == 0 {
                        Err(manifest_invalid())
                    } else {
                        match spec_resolve(opf, href) {
                            Err(e) => Err(e),
                            Ok(target) => if manifest_lookup(m, id) is Some {
                                Err(manifest_invalid())
                            } else {
                                Ok(m.push((id, target)))
                            },
                        }
                    },
                }
            },
        }
    }
}

/// The manifest of a package document: each item's id and resolved target.
pub open spec fn spec_manifest(nodes: Seq<XmlNode>, opf: Seq<char>) -> Result<Seq<(Seq<char>, Seq<char>)>, ErrorView>
    decreases nodes.len(),
{
    if nodes.len() == 0 {
        Ok(Seq::empty())
    } else {
        match spec_manifest(nodes.drop_last(), opf) {
            Err(e) => Err(e),
            Ok(m) => manifest_step(m, nodes.last(), opf),
        }
    }
}

/// A spine reference is sound: it names a declared item whose target is in
/// the archive.
pub open spec fn itemref_ok(n: XmlNode, m: Seq<(Seq<char>, Seq<char>)>, names: Seq<Seq<char>>) -> bool {
    is_named(n, "itemref"@) ==> (attr(n, "idref"@) matches Some(idref) && manifest_lookup(
        m,
        idref,
    ) matches Some(target) && names.contains(target))
}

pub open spec fn has_itemref(nodes: Seq<XmlNode>) -> bool {
    exists|k: int| 0 <= k < nodes.len() && #[trigger] is_named(nodes[k], "itemref"@)
}

/// The checks made once the package document is parsed.
pub open spec fn spec_check_package(pkg: Seq<XmlNode>, opf: Seq<char>, names: Seq<Seq<char>>) -> Result<(Seq<char>, Seq<Seq<char>>), ErrorView> {
    match spec_manifest(pkg, opf) {
        Err(e) => Err(e),
        Ok(m) => if m.len() == 0 {
            Err(manifest_invalid())
        } else if !(forall|k: int| 0 <= k < pkg.len() ==> #[trigger] itemref_ok(pkg[k], m, names)) {
            Err(reading_order_broken())
        } else if has_itemref(pkg) {
            Ok((opf, Seq::empty()))
        } else {
            Ok((opf, seq![no_reading_order_warning()]))
        },
    }
}

/// Node `n` is a manifest item with id `id` whose `href`, resolved against
/// the package document's path `opf`, is one of the archive's entry names.
pub open spec fn item_in_archive(n: XmlNode, id: Seq<char>, opf: Seq<char>, names: Seq<Seq<char>>) -> bool {
    &&& is_named(n, "item"@)
    &&& attr(n, "id"@) == Some(id)
    &&& attr(n, "href"@) matches Some(h) && spec_resolve(opf, h) matches Ok(t) && names.contains(t)
}

proof fn lemma_lookup_push(m: Seq<(Seq<char>, Seq<char>)>, p: (Seq<char>, Seq<char>), id: Seq<char>)
    ensures
        manifest_lookup(m.push(p), id) == (if manifest_lookup(m, id) is Some {
            manifest_lookup(m, id)
        } else if p.0 == id {
            Some(p.1)
        } else {
            None
        }),
    decreases m.len(),
{
    if m.len() == 0 {
        assert(m.push(p).drop_first() =~= Seq::<(Seq<char>, Seq<char>)>::empty());
        assert(m.push(p)[0] == p);
    } else {
        assert(m.push(p).drop_first() =~= m.drop_first().push(p));
        assert(m.push(p)[0] == m[0]);
        lemma_lookup_push(m.drop_first(), p, id);
    }
}

/// Every target in the manifest comes from an item of the package document
/// with that id and an `href` that resolves to it.
proof fn lemma_manifest_source(nodes: Seq<XmlNode>, opf: Seq<char>, id: Seq<char>, t: Seq<char>)
    requires
        spec_manifest(nodes, opf) matches Ok(m) && manifest_lookup(m, id) == Some(t),
    ensures
        exists|j: int|
            0 <= j < nodes.len() && is_named(#[trigger] nodes[j], "item"@) && attr(nodes[j], "id"@) == Some(id)
                && attr(nodes[j], "href"@) is Some && spec_resolve(opf, attr(nodes[j], "href"@)->0) == Ok::<
                Seq<char>,
                ErrorView,
            >(t),
    decreases nodes.len(),
{
    let rest = nodes.drop_last();
    let m = spec_manifest(nodes, opf)->Ok_0;
    let m0 = spec_manifest(rest, opf)->Ok_0;
    let n = nodes.last();
    assert(nodes.len() > 0);
    assert(n == nodes[nodes.len() - 1]);
    if m == m0 {
        lemma_manifest_source(rest, opf, id, t);
        let j = choose|j: int|
            0 <= j < rest.len() && is_named(#[trigger] rest[j], "item"@) && attr(rest[j], "id"@) == Some(id)
                && attr(rest[j], "href"@) is Some && spec_resolve(opf, attr(rest[j], "href"@)->0) == Ok::<
                Seq<char>,
                ErrorView,
            >(t);
        assert(nodes[j] == rest[j]);
    } else {
        let nid = attr(n, "id"@)->0;
        let target = spec_resolve(opf, attr(n, "href"@)->0)->Ok_0;
        assert(m == m0.push((nid, target)));
        lemma_lookup_push(m0, (nid, target), id);
        if manifest_lookup(m0, id) is Some {
            lemma_manifest_source(rest, opf, id, t);
            let j = choose|j: int|
                0 <= j < rest.len() && is_named(#[trigger] rest[j], "item"@) && attr(rest[j], "id"@) == Some(id)
                    && attr(rest[j], "href"@) is Some && spec_resolve(opf, attr(rest[j], "href"@)->0) == Ok::<
                    Seq<char>,
                    ErrorView,
                >(t);
            assert(nodes[j] == rest[j]);
        }
    }
}

/// Every item of a package document whose manifest was built is in the
/// manifest under its id.
proof fn lemma_manifest_has_item(nodes: Seq<XmlNode>, opf: Seq<char>, j: int)
    requires
        spec_manifest(nodes, opf) is Ok,
        0 <= j < nodes.len(),
        is_named(nodes[j], "item"@),
    ensures
        attr(nodes[j], "id"@) is Some,
        manifest_lookup(spec_manifest(nodes, opf)->Ok_0, attr(nodes[j], "id"@)->0) is Some,
    decreases nodes.len(),
{
    let rest = nodes.drop_last();
    let m = spec_manifest(nodes, opf)->Ok_0;
    let m0 = spec_manifest(rest, opf)->Ok_0;
    let n = nodes.last();
    if j < nodes.len() - 1 {
        assert(rest[j] == nodes[j]);
        lemma_manifest_has_item(rest, opf, j);
        if m != m0 {
            let nid = attr(n, "id"@)->0;
            let target = spec_resolve(opf, attr(n, "href"@)->0)->Ok_0;
            lemma_lookup_push(m0, (nid, target), attr(nodes[j], "id"@)->0);
        }
    } else {
        assert(n == nodes[j]);
        let nid = attr(n, "id"@)->0;
        let target = spec_resolve(opf, attr(n, "href"@)->0)->Ok_0;
        lemma_lookup_push(m0, (nid, target), nid);
    }
}

/// A package document passes its checks only if every `itemref` of its
/// reading order names, by `idref`, a manifest item whose reference
/// resolves to an entry of the archive.
pub proof fn lemma_accepted_reading_order_in_archive(pkg: Seq<XmlNode>, opf: Seq<char>, names: Seq<Seq<char>>, k: int)
    requires
        spec_check_package(pkg, opf, names) is Ok,
        0 <= k < pkg.len(),
        is_named(pkg[k], "itemref"@),
    ensures
        attr(pkg[k], "idref"@) is Some,
        exists|j: int| 0 <= j < pkg.len() && item_in_archive(#[trigger] pkg[j], attr(pkg[k], "idref"@)->0, opf, names),
{
    let m = spec_manifest(pkg, opf)->Ok_0;
    assert(itemref_ok(pkg[k], m, names));
    let id = attr(pkg[k], "idref"@)->0;
    let t = manifest_lookup(m, id)->0;
    lemma_manifest_source(pkg, opf, id, t);
    let j = choose|j: int|
        0 <= j < pkg.len() && is_named(#[trigger] pkg[j], "item"@) && attr(pkg[j], "id"@) == Some(id)
            && attr(pkg[j], "href"@) is Some && spec_resolve(opf, attr(pkg[j], "href"@)->0) == Ok::<
            Seq<char>,
            ErrorView,
        >(t);
    assert(item_in_archive(pkg[j], id, opf, names));
}

/// An `itemref` that names no manifest item, or one whose reference is not
/// an entry of the archive, fails a package document whose manifest is
/// sound with the broken reading order error (the manifest error where the
/// package declares no item at all).
pub proof fn lemma_missing_reading_order_target_refused(pkg: Seq<XmlNode>, opf: Seq<char>, names: Seq<Seq<char>>, k: int)
    requires
        spec_manifest(pkg, opf) is Ok,
        0 <= k < pkg.len(),
        is_named(pkg[k], "itemref"@),
        !(attr(pkg[k], "idref"@) is Some && exists|j: int|
            0 <= j < pkg.len() && item_in_archive(#[trigger] pkg[j], attr(pkg[k], "idref"@)->0, opf, names)),
    ensures
        spec_check_package(pkg, opf, names) is Err,
        (exists|j: int| 0 <= j < pkg.len() && is_named(#[trigger] pkg[j], "item"@)) ==> spec_check_package(
            pkg,
            opf,
            names,
        ) == Err::<(Seq<char>, Seq<Seq<char>>), ErrorView>(reading_order_broken()),
{
    let m = spec_manifest(pkg, opf)->Ok_0;
    if itemref_ok(pkg[k], m, names) {
        let id = attr(pkg[k], "idref"@)->0;
        let t = manifest_lookup(m, id)->0;
        lemma_manifest_source(pkg, opf, id, t);
        let j = choose|j: int|
            0 <= j < pkg.len() && is_named(#[trigger] pkg[j], "item"@) && attr(pkg[j], "id"@) == Some(id)
                && attr(pkg[j], "href"@) is Some && spec_resolve(opf, attr(pkg[j], "href"@)->0) == Ok::<
                Seq<char>,
                ErrorView,
            >(t);
        assert(item_in_archive(pkg[j], id, opf, names));
        assert(false);
    }
    assert(!(forall|i: int| 0 <= i < pkg.len() ==> #[trigger] itemref_ok(pkg[i], m, names)));
    if exists|j: int| 0 <= j < pkg.len() && is_named(#[trigger] pkg[j], "item"@) {
        let j = choose|j: int| 0 <= j < pkg.len() && is_named(#[trigger] pkg[j], "item"@);
        lemma_manifest_has_item(pkg, opf, j);
        assert(m.len() > 0);
    }
}

/// The checks made from the container document on.
pub open spec fn spec_check_documents(entries: Seq<ZipEntryModel>, names: Seq<Seq<char>>) -> Result<(Seq<char>, Seq<Seq<char>>), ErrorView> {
    match spec_read_text(entries, "META-INF/container.xml"@, MAX_XML_BYTES as u64) {
        Err(_) => Err(container_missing()),
        Ok(container) => match xml_document(container) {
            None => Err(container_invalid()),
            Some(cnodes) => match spec_rootfile(cnodes) {
                None => Err(package_missing()),
                Some(path) => match spec_normalize(path) {
                    Err(e) => Err(e),
                    Ok(opf) => if !names.contains(opf) {
                        Err(package_missing())
                    } else {
                        match spec_read_text(entries, opf, MAX_XML_BYTES as u64) {
                            Err(_) => Err(package_invalid()),
                            Ok(text) => match xml_document(text) {
                                None => Err(package_invalid()),
                                Some(pkg) => spec_check_package(pkg, opf, names),
                            },
                        }
                    },
                },
            },
        },
    }
}

/// What validating the archive in `bytes` yields: the package path and the
/// warnings, or the first problem found.
pub open spec fn spec_validate(bytes: Seq<u8>) -> Result<(Seq<char>, Seq<Seq<char>>), ErrorView> {
    match zip_parse(bytes) {
        None => Err(invalid_archive()),
        Some(entries) => if entries.len() == 0 {
            Err(invalid_archive())
        } else if entries.len() > MAX_ENTRIES {
            Err(limit_exceeded())
        } else {
            match scan_entries(entries) {
                Err(e) => Err(e),
                Ok((names, _)) => if has_conflict(names) {
                    Err(conflicting_paths())
                } else {
                    match spec_read_text(entries, "mimetype"@, MAX_XML_BYTES as u64) {
                        Err(e) => Err(e),
                        Ok(mimetype) => if trim(mimetype) != "application/epub+zip"@ {
                            Err(invalid_archive())
                        } else {
                            spec_check_documents(entries, names)
                        },
                    }
                },
            }
        },
    }
}

pub proof fn lemma_trim_slashes_take(s: Seq<char>, k: int)
    requires
        0 <= k <= s.len(),
        forall|j: int| k <= j < s.len() ==> s[j] == '/',
        k == 0 || s[k - 1] != '/',
    ensures
        trim_slashes(s) == s.take(k),
    decreases s.len() - k,
{
    if k == s.len() {
        assert(s.take(k) =~= s);
    } else {
        lemma_trim_slashes_take(s.drop_last(), k);
        assert(s.drop_last().take(k) =~= s.take(k));
    }
}

fn trim_slashes_chars(s: &[char]) -> (r: Vec<char>)
    ensures
        r@ == trim_slashes(s@),
{
    let mut k: usize = s.len();
    while k > 0 && s[k - 1] == '/'
        invariant
            k <= s@.len(),
            forall|j: int| k <= j < s@.len() ==> s@[j] == '/',
        decreases k,
    {
        k = k - 1;
    }
    proof {
        lemma_trim_slashes_take(s@, k as int);
    }
    let mut r: Vec<char> = Vec::new();
    let mut i: usize = 0;
    while i < k
        invariant
            k <= s@.len(),
            i <= k,
            r@ == s@.take(i as int),
        decreases k - i,
    {
        r.push(s[i]);
        i = i + 1;
        assert(r@ =~= s@.take(i as int));
    }
    r
}

/// Whether some name's parent directory is itself a name.
fn find_conflict(names: &Vec<Vec<char>>) -> (r: bool)
    ensures
        r == has_conflict(views(names@)),
{
    let ghost ns = views(names@);
    let mut i: usize = 0;
    while i < names.len()
        invariant
            i <= names@.len(),
            ns == views(names@),
            forall|a: int, b: int|
                0 <= a < i && 1 <= b < crate::text::split(ns[a], '/').len() ==> !#[trigger] conflict_at(
                    ns,
                    a,
                    b,
                ),
        decreases names@.len() - i,
    {
        let pieces = crate::text::split_chars(names[i].as_slice(), '/');
        let ghost sp = crate::text::split(ns[i as int], '/');
        assert(ns[i as int] == names@[i as int]@);
        proof {
            crate::text::lemma_split_nonempty(ns[i as int], '/');
        }
        let count = pieces.len();
        let mut prefix: Vec<char> = Vec::new();
        let mut j: usize = 0;
        assert(prefix@ =~= piece_prefix(sp, 0));
        while j < count - 1
            invariant
                i < names@.len(),
                ns == views(names@),
                count == sp.len(),
                sp == crate::text::split(ns[i as int], '/'),
                pieces@.len() == count,
                forall|q: int| 0 <= q < count ==> (#[trigger] pieces@[q])@ == sp[q],
                count >= 1,
                j <= count - 1,
                prefix@ == piece_prefix(sp, j as int),
                forall|b: int| 1 <= b <= j ==> !#[trigger] conflict_at(ns, i as int, b),
            decreases count - j,
        {
            prefix.extend_from_slice(pieces[j].as_slice());
            prefix.push('/');
            j = j + 1;
            assert(prefix@ =~= piece_prefix(sp, j as int));
            let t = trim_slashes_chars(prefix.as_slice());
            if contains_piece(names, t.as_slice()) {
                assert(conflict_at(ns, i as int, j as int));
                return true;
            }
        }
        assert forall|a: int, b: int|
            0 <= a < i + 1 && 1 <= b < crate::text::split(ns[a], '/').len() implies !#[trigger] conflict_at(ns, a, b) by {
            if a == i {
                assert(b <= j);
            }
        }
        i = i + 1;
    }
    false
}


/// `read_text`: entry `name` as text of at most `max` expanded bytes.
fn read_text(archive: &mut ZipArchive<Cursor<Vec<u8>>>, name: &str, max: u64) -> (r: Result<String, AppError>)
    ensures
        zip_entries(*final(archive)) == zip_entries(*old(archive)),
        match r {
            Ok(t) => spec_read_text(zip_entries(*old(archive)), name@, max) == Ok::<
                Seq<char>,
                ErrorView,
            >(t@),
            Err(e) => spec_read_text(zip_entries(*old(archive)), name@, max) matches Err(x)
                && same_error(e@, x),
        },
{
    let info = match zip_entry_named(archive, name) {
        Ok(info) => info,
        Err(_) => return Err(bad_request("The EPUB is missing a required file.")),
    };
    if info.size > max {
        return Err(limit_error());
    }
    let bytes = match zip_read_named(archive, name) {
        Ok(bytes) => bytes,
        Err(ZipReadFailure::Unreadable(message)) => return Err(AppError::Io(message)),
        Err(ZipReadFailure::Missing) => return Err(
            bad_request("The EPUB is missing a required file."),
        ),
    };
    match utf8_string(bytes) {
        Some(text) => Ok(text),
        None => Err(bad_request("The EPUB contains invalid text data.")),
    }
}

/// The `full-path` of the container's first `rootfile` element.
pub fn rootfile_path(nodes: &Vec<XmlNode>) -> (r: Option<String>)
    ensures
        match r {
            Some(p) => spec_rootfile(nodes@) == Some(p@),
            None => spec_rootfile(nodes@) is None,
        },
{
    let tag = to_chars("rootfile");
    let key = to_chars("full-path");
    match crate::xml::find_named(nodes, tag.as_slice()) {
        None => None,
        Some(i) => attribute(&nodes[i], key.as_slice()),
    }
}

fn manifest_lookup_exec(m: &Vec<(Vec<char>, Vec<char>)>, id: &[char]) -> (r: Option<usize>)
    ensures
        match r {
            Some(k) => k < m@.len() && manifest_lookup(pair_views(m@), id@) == Some(m@[k as int].1@),
            None => manifest_lookup(pair_views(m@), id@) is None,
        },
{
    let ghost pv = pair_views(m@);
    let mut k: usize = 0;
    assert(pv.skip(0) =~= pv);
    while k < m.len()
        invariant
            k <= m@.len(),
            pv == pair_views(m@),
            manifest_lookup(pv, id@) == manifest_lookup(pv.skip(k as int), id@),
        decreases m@.len() - k,
    {
        assert(pv.skip(k as int).drop_first() =~= pv.skip(k + 1));
        assert(pv.skip(k as int)[0] == pv[k as int]);
        if chars_eq(m[k].0.as_slice(), id) {
            return Some(k);
        }
        k = k + 1;
    }
    assert(pv.skip(k as int).len() == 0);
    None
}

/// The identifiers and targets as character sequences.
pub open spec fn pair_views(m: Seq<(Vec<char>, Vec<char>)>) -> Seq<(Seq<char>, Seq<char>)> {
    m.map_values(|p: (Vec<char>, Vec<char>)| (p.0@, p.1@))
}

fn manifest_invalid_error() -> (e: AppError)
    ensures
        e@ == manifest_invalid(),
{
    bad_request("The EPUB has an invalid manifest.")
}

/// The value of attribute `key` when it is present and not blank.
fn non_blank_attribute(n: &XmlNode, key: &str) -> (r: Option<Vec<char>>)
    ensures
        match r {
            Some(v) => attr(*n, key@) == Some(v@) && trim(v@).len() > 0,
            None => attr(*n, key@) is None || trim(attr(*n, key@)->0).len() == 0,
        },
{
    let k = to_chars(key);
    match attribute(n, k.as_slice()) {
        None => None,
        Some(value) => {
            let v = to_chars(value.as_str());
            let t = trim_chars(v.as_slice());
            if t.len() == 0 {
                None
            } else {
                Some(v)
            }
        },
    }
}

pub proof fn lemma_manifest_error_persists(nodes: Seq<XmlNode>, opf: Seq<char>, k: int)
    requires
        0 <= k <= nodes.len(),
        spec_manifest(nodes.take(k), opf) is Err,
    ensures
        spec_manifest(nodes, opf) == spec_manifest(nodes.take(k), opf),
    decreases nodes.len() - k,
{
    if k < nodes.len() {
        assert(nodes.take(k + 1).drop_last() =~= nodes.take(k));
        lemma_manifest_error_persists(nodes, opf, k + 1);
    } else {
        assert(nodes.take(k) =~= nodes);
    }
}

/// Reads the manifest: every `item` needs a non-blank id and href, a safe
/// target, and an id of its own.
fn build_manifest(nodes: &Vec<XmlNode>, opf: &[char]) -> (r: Result<Vec<(Vec<char>, Vec<char>)>, AppError>)
    ensures
        match r {
            Ok(m) => spec_manifest(nodes@, opf@) == Ok::<Seq<(Seq<char>, Seq<char>)>, ErrorView>(
                pair_views(m@),
            ),
            Err(e) => spec_manifest(nodes@, opf@) == Err::<Seq<(Seq<char>, Seq<char>)>, ErrorView>(
                e@,
            ),
        },
{
    let item = to_chars("item");
    let mut m: Vec<(Vec<char>, Vec<char>)> = Vec::new();
    let mut i: usize = 0;
    assert(nodes@.take(0) =~= Seq::<XmlNode>::empty());
    assert(pair_views(m@) =~= Seq::<(Seq<char>, Seq<char>)>::empty());
    while i < nodes.len()
        invariant
            i <= nodes@.len(),
            item@ == "item"@,
            spec_manifest(nodes@.take(i as int), opf@) == Ok::<
                Seq<(Seq<char>, Seq<char>)>,
                ErrorView,
            >(pair_views(m@)),
        decreases nodes@.len() - i,
    {
        let n = &nodes[i];
        assert(nodes@.take(i + 1).drop_last() =~= nodes@.take(i as int));
        assert(nodes@.take(i + 1).last() == nodes@[i as int]);
        if node_is_named(n, item.as_slice()) {
            let id = match non_blank_attribute(n, "id") {
                Some(v) => v,
                None => {
                    proof {
                        lemma_manifest_error_persists(nodes@, opf@, i + 1);
                    }
                    return Err(manifest_invalid_error());
                },
            };
            let href = match non_blank_attribute(n, "href") {
                Some(v) => v,
                None => {
                    proof {
                        lemma_manifest_error_persists(nodes@, opf@, i + 1);
                    }
                    return Err(manifest_invalid_error());
                },
            };
            let target = match resolve_chars(opf, href.as_slice()) {
                Ok(t) => t,
                Err(e) => {
                    proof {
                        lemma_manifest_error_persists(nodes@, opf@, i + 1);
                    }
                    return Err(e);
                },
            };
            if manifest_lookup_exec(&m, id.as_slice()).is_some() {
                proof {
                    lemma_manifest_error_persists(nodes@, opf@, i + 1);
                }
                return Err(manifest_invalid_error());
            }
            let ghost before = pair_views(m@);
            m.push((id, target));
            assert(pair_views(m@) =~= before.push((id@, target@)));
        }
        i = i + 1;
    }
    assert(nodes@.take(nodes@.len() as int) =~= nodes@);
    Ok(m)
}

/// Whether every spine reference names a declared item present in the archive.
fn spine_sound(nodes: &Vec<XmlNode>, m: &Vec<(Vec<char>, Vec<char>)>, names: &Vec<Vec<char>>) -> (r: bool)
    ensures
        r == (forall|k: int|
            0 <= k < nodes@.len() ==> #[trigger] itemref_ok(nodes@[k], pair_views(m@), views(names@))),
{
    let itemref = to_chars("itemref");
    let idref_key = to_chars("idref");
    let mut i: usize = 0;
    while i < nodes.len()
        invariant
            i <= nodes@.len(),
            itemref@ == "itemref"@,
            idref_key@ == "idref"@,
            forall|k: int| 0 <= k < i ==> #[trigger] itemref_ok(nodes@[k], pair_views(m@), views(names@)),
        decreases nodes@.len() - i,
    {
        let n = &nodes[i];
        if node_is_named(n, itemref.as_slice()) {
            let idref = match attribute(n, idref_key.as_slice()) {
                Some(v) => v,
                None => {
                    assert(!itemref_ok(nodes@[i as int], pair_views(m@), views(names@)));
                    return false;
                },
            };
            let idv = to_chars(idref.as_str());
            match manifest_lookup_exec(m, idv.as_slice()) {
                None => {
                    assert(!itemref_ok(nodes@[i as int], pair_views(m@), views(names@)));
                    return false;
                },
                Some(k) => {
                    if !contains_piece(names, m[k].1.as_slice()) {
                        assert(!itemref_ok(nodes@[i as int], pair_views(m@), views(names@)));
                        return false;
                    }
                },
            }
        }
        i = i + 1;
    }
    true
}

/// Whether the package declares any reading order.
fn any_itemref(nodes: &Vec<XmlNode>) -> (r: bool)
    ensures
        r == has_itemref(nodes@),
{
    let itemref = to_chars("itemref");
    let mut i: usize = 0;
    while i < nodes.len()
        invariant
            i <= nodes@.len(),
            itemref@ == "itemref"@,
            forall|k: int| 0 <= k < i ==> !#[trigger] is_named(nodes@[k], "itemref"@),
        decreases nodes@.len() - i,
    {
        if node_is_named(&nodes[i], itemref.as_slice()) {
            return true;
        }
        i = i + 1;
    }
    false
}


/// The character sequences of a list of strings.
pub open spec fn string_views(v: Seq<String>) -> Seq<Seq<char>> {
    v.map_values(|s: String| s@)
}

/// The checks of a parsed package document: a manifest of unique ids whose
/// references resolve safely against `opf`, and a reading order whose
/// every entry names a manifest item present among the archive's `names`.
pub fn check_package(pkg: &Vec<XmlNode>, opf: Vec<char>, names: &Vec<Vec<char>>) -> (r: Result<ValidatedEpub, AppError>)
    ensures
        match r {
            Ok(v) => spec_check_package(pkg@, opf@, views(names@)) == Ok::<
                (Seq<char>, Seq<Seq<char>>),
                ErrorView,
            >((v.opf_path@, string_views(v.warnings@))),
            Err(e) => spec_check_package(pkg@, opf@, views(names@)) == Err::<
                (Seq<char>, Seq<Seq<char>>),
                ErrorView,
            >(e@),
        },
{
    let m = match build_manifest(pkg, opf.as_slice()) {
        Ok(m) => m,
        Err(e) => return Err(e),
    };
    if m.len() == 0 {
        return Err(manifest_invalid_error());
    }
    if !spine_sound(pkg, &m, names) {
        return Err(bad_request("The EPUB has a broken reading order."));
    }
    let mut warnings: Vec<String> = Vec::new();
    if !any_itemref(pkg) {
        warnings.push("The EPUB has no declared reading order.".to_owned());
    }
    assert(string_views(warnings@) =~= (if has_itemref(pkg@) {
        Seq::<Seq<char>>::empty()
    } else {
        seq![no_reading_order_warning()]
    }));
    Ok(ValidatedEpub { opf_path: string_of(opf.as_slice()), warnings })
}

fn check_documents(archive: &mut ZipArchive<Cursor<Vec<u8>>>, names: &Vec<Vec<char>>) -> (r: Result<ValidatedEpub, AppError>)
    ensures
        match r {
            Ok(v) => spec_check_documents(zip_entries(*old(archive)), views(names@)) == Ok::<
                (Seq<char>, Seq<Seq<char>>),
                ErrorView,
            >((v.opf_path@, string_views(v.warnings@))),
            Err(e) => spec_check_documents(zip_entries(*old(archive)), views(names@)) matches Err(
                x,
            ) && same_error(e@, x),
        },
{
    let container = match read_text(archive, "META-INF/container.xml", MAX_XML_BYTES as u64) {
        Ok(text) => text,
        Err(_) => return Err(
            bad_request("The EPUB is missing or has an invalid container document."),
        ),
    };
    let cnodes = match parse_xml(container.as_str()) {
        Ok(nodes) => nodes,
        Err(_) => return Err(bad_request("The EPUB has an invalid container document.")),
    };
    let path = match rootfile_path(&cnodes) {
        Some(p) => p,
        None => return Err(bad_request("The EPUB is missing its package document.")),
    };
    let pv = to_chars(path.as_str());
    let opf = match normalize_chars(pv.as_slice()) {
        Ok(o) => o,
        Err(e) => return Err(e),
    };
    if !contains_piece(names, opf.as_slice()) {
        return Err(bad_request("The EPUB is missing its package document."));
    }
    let opf_name = string_of(opf.as_slice());
    let text = match read_text(archive, opf_name.as_str(), MAX_XML_BYTES as u64) {
        Ok(text) => text,
        Err(_) => return Err(bad_request("The EPUB has an invalid package document.")),
    };
    let pkg = match parse_xml(text.as_str()) {
        Ok(nodes) => nodes,
        Err(_) => return Err(bad_request("The EPUB has an invalid package document.")),
    };
    check_package(&pkg, opf, names)
}

/// `validate_new_epub`: checks an EPUB archive, held in memory, before it is
/// imported. The archive must open, hold between one and `MAX_ENTRIES`
/// entries with safe, unique names and sizes within the limits, declare the
/// EPUB mimetype, and lead through its container to a package document
/// whose manifest and reading order are sound.
pub fn validate_new_epub(bytes: Vec<u8>) -> (r: Result<ValidatedEpub, AppError>)
    ensures
        match r {
            Ok(v) => spec_validate(bytes@) == Ok::<(Seq<char>, Seq<Seq<char>>), ErrorView>(
                (v.opf_path@, string_views(v.warnings@)),
            ),
            Err(e) => spec_validate(bytes@) matches Err(x) && same_error(e@, x),
        },
{
    let ghost input = bytes@;
    let mut archive = match zip_open(bytes) {
        Ok(a) => a,
        Err(_) => return Err(invalid_archive_error()),
    };
    let ghost entries = zip_entries(archive);
    let n = zip_len(&archive);
    if n == 0 {
        return Err(invalid_archive_error());
    }
    if n > MAX_ENTRIES {
        return Err(limit_error());
    }
    let names = match scan_archive(&mut archive) {
        Ok(names) => names,
        Err(e) => return Err(e),
    };
    if find_conflict(&names) {
        return Err(bad_request("The EPUB contains conflicting archive paths."));
    }
    let mimetype = match read_text(&mut archive, "mimetype", MAX_XML_BYTES as u64) {
        Ok(text) => text,
        Err(e) => return Err(e),
    };
    let mv = to_chars(mimetype.as_str());
    let trimmed = trim_chars(mv.as_slice());
    let expected = to_chars("application/epub+zip");
    if !chars_eq(trimmed.as_slice(), expected.as_slice()) {
        return Err(invalid_archive_error());
    }
    assert(zip_entries(archive) == entries);
    check_documents(&mut archive, &names)
}

/// Reading entry `name` of the archive in `bytes`, with at most `max`
/// expanded bytes.
pub open spec fn spec_read_entry(bytes: Seq<u8>, name: Seq<char>, max: usize) -> Result<Seq<u8>, ErrorView> {
    match zip_parse(bytes) {
        None => Err(invalid_archive()),
        Some(entries) => match entry_named(entries, name) {
            Some(e) => match e.info {
                Some(info) => if info.size > max {
                    Err(limit_exceeded())
                } else {
                    match e.data {
                        Some(d) => Ok(d),
                        None => Err(ErrorView::Io(Seq::empty())),
                    }
                },
                None => Err(missing_file()),
            },
            None => Err(missing_file()),
        },
    }
}

/// `read_validated_entry`: the bytes of entry `name` of an archive that
/// passed validation, refused beyond `max` bytes.
pub fn read_validated_entry(bytes: Vec<u8>, name: &str, max: usize) -> (r: Result<Vec<u8>, AppError>)
    ensures
        match r {
            Ok(v) => spec_read_entry(bytes@, name@, max) == Ok::<Seq<u8>, ErrorView>(v@),
            Err(e) => spec_read_entry(bytes@, name@, max) matches Err(x) && same_error(e@, x),
        },
{
    let mut archive = match zip_open(bytes) {
        Ok(a) => a,
        Err(_) => return Err(invalid_archive_error()),
    };
    let info = match zip_entry_named(&mut archive, name) {
        Ok(info) => info,
        Err(_) => return Err(bad_request("The EPUB is missing a required file.")),
    };
    if info.size > max as u64 {
        return Err(limit_error());
    }
    match zip_read_named(&mut archive, name) {
        Ok(v) => Ok(v),
        Err(ZipReadFailure::Unreadable(message)) => Err(AppError::Io(message)),
        Err(ZipReadFailure::Missing) => Err(bad_request("The EPUB is missing a required file.")),
    }
}

/// `resolve_epub_path` of the validator: a manifest reference resolved
/// against the package document's directory and normalized; an absolute
/// URL is kept as it is.
pub fn resolve_epub_path(opf: &str, href: &str) -> (r: Result<String, AppError>)
    ensures
        match r {
            Ok(s) => spec_resolve(opf@, href@) == Ok::<Seq<char>, ErrorView>(s@),
            Err(e) => spec_resolve(opf@, href@) == Err::<Seq<char>, ErrorView>(e@),
        },
{
    let o = to_chars(opf);
    let h = to_chars(href);
    match resolve_chars(o.as_slice(), h.as_slice()) {
        Ok(v) => Ok(string_of(v.as_slice())),
        Err(e) => Err(e),
    }
}

} // verus!
