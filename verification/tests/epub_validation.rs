use std::io::Write;
use stori::epub_validation::{
    is_resource, limit_error, read_validated_entry, resolve_epub_path, validate_new_epub,
    MAX_XHTML_BYTES,
};
use stori::error::AppError;
use stori::paths::normalize_archive_path;

fn epub(entries: Vec<(&str, Vec<u8>)>) -> Vec<u8> {
    let mut zip = zip::ZipWriter::new(std::io::Cursor::new(Vec::new()));
    let options = zip::write::SimpleFileOptions::default();
    for (name, bytes) in entries {
        zip.start_file(name, options).unwrap();
        zip.write_all(&bytes).unwrap();
    }
    zip.finish().unwrap().into_inner()
}

fn valid(version: &str) -> Vec<u8> {
    epub(vec![
        ("mimetype", b"application/epub+zip".to_vec()),
        ("META-INF/container.xml", b"<container><rootfiles><rootfile full-path=\"OPS/book.opf\"/></rootfiles></container>".to_vec()),
        ("OPS/book.opf", format!("<package version=\"{version}\"><manifest><item id=\"chapter\" href=\"chapter.xhtml\" media-type=\"application/xhtml+xml\"/></manifest><spine><itemref idref=\"chapter\"/></spine></package>").into_bytes()),
        ("OPS/chapter.xhtml", b"<html><body>ok</body></html>".to_vec()),
    ])
}

fn message(error: AppError) -> String {
    match error {
        AppError::BadRequest(m) => m,
        other => panic!("unexpected {other:?}"),
    }
}

#[test]
fn accepts_minimal_epub2_and_epub3() {
    for version in ["2.0", "3.0"] {
        assert!(validate_new_epub(valid(version)).is_ok());
    }
}

#[test]
fn rejects_unsafe_archive_and_structure() {
    assert!(validate_new_epub(epub(vec![("../escape", vec![1])])).is_err());
    assert!(validate_new_epub(epub(vec![("C:/escape", vec![1])])).is_err());
    assert!(validate_new_epub(epub(vec![("mimetype", b"application/epub+zip".to_vec())])).is_err());
    let broken = epub(vec![("mimetype", b"application/epub+zip".to_vec()), ("META-INF/container.xml", b"<container".to_vec())]);
    assert!(validate_new_epub(broken).is_err());
}

#[test]
fn rejects_broken_spine_and_compression_bomb_shape() {
    let broken = epub(vec![
        ("mimetype", b"application/epub+zip".to_vec()),
        ("META-INF/container.xml", b"<container><rootfile full-path=\"book.opf\"/></container>".to_vec()),
        ("book.opf", b"<package><manifest><item id=\"a\" href=\"a.xhtml\"/></manifest><spine><itemref idref=\"missing\"/></spine></package>".to_vec()),
    ]);
    assert!(validate_new_epub(broken).is_err());
    let bomb = epub(vec![
        ("mimetype", b"application/epub+zip".to_vec()),
        ("META-INF/container.xml", b"<container><rootfile full-path=\"book.opf\"/></container>".to_vec()),
        ("book.opf", b"<package><manifest><item id=\"a\" href=\"a.xhtml\"/></manifest><spine><itemref idref=\"a\"/></spine></package>".to_vec()),
        ("a.xhtml", vec![b'x'; (MAX_XHTML_BYTES + 1) as usize]),
    ]);
    assert!(validate_new_epub(bomb).is_err());
}

#[test]
fn reports_where_the_package_is_and_warns_without_a_spine() {
    let ok = validate_new_epub(valid("3.0")).unwrap();
    assert_eq!(ok.opf_path, "OPS/book.opf");
    assert!(ok.warnings.is_empty());
    let no_spine = epub(vec![
        ("mimetype", b"application/epub+zip".to_vec()),
        ("META-INF/container.xml", b"<container><rootfile full-path=\"OPS/book.opf\"/></container>".to_vec()),
        ("OPS/book.opf", b"<package><manifest><item id=\"a\" href=\"a.xhtml\"/></manifest></package>".to_vec()),
        ("OPS/a.xhtml", b"<html/>".to_vec()),
    ]);
    let warned = validate_new_epub(no_spine).unwrap();
    assert_eq!(warned.warnings, vec!["The EPUB has no declared reading order.".to_string()]);
}

#[test]
fn names_each_validation_failure() {
    assert_eq!(message(validate_new_epub(b"not a zip".to_vec()).unwrap_err()), "This file is not a valid EPUB archive.");
    let wrong_mime = epub(vec![("mimetype", b"text/plain".to_vec())]);
    assert_eq!(message(validate_new_epub(wrong_mime).unwrap_err()), "This file is not a valid EPUB archive.");
    let conflict = epub(vec![("mimetype", b"application/epub+zip".to_vec()), ("a", vec![1]), ("a/b", vec![2])]);
    assert_eq!(message(validate_new_epub(conflict).unwrap_err()), "The EPUB contains conflicting archive paths.");
    let no_container = epub(vec![("mimetype", b"application/epub+zip".to_vec())]);
    assert!(message(validate_new_epub(no_container).unwrap_err()).contains("container document"));
    let unsafe_name = epub(vec![("/abs", vec![1])]);
    assert_eq!(message(validate_new_epub(unsafe_name).unwrap_err()), "The EPUB contains unsafe archive paths.");
    let empty_manifest = epub(vec![
        ("mimetype", b"application/epub+zip".to_vec()),
        ("META-INF/container.xml", b"<container><rootfile full-path=\"book.opf\"/></container>".to_vec()),
        ("book.opf", b"<package><manifest/></package>".to_vec()),
    ]);
    assert_eq!(message(validate_new_epub(empty_manifest).unwrap_err()), "The EPUB has an invalid manifest.");
    let missing_package = epub(vec![
        ("mimetype", b"application/epub+zip".to_vec()),
        ("META-INF/container.xml", b"<container><rootfile full-path=\"gone.opf\"/></container>".to_vec()),
    ]);
    assert_eq!(message(validate_new_epub(missing_package).unwrap_err()), "The EPUB is missing its package document.");
}

#[test]
fn reads_validated_entries_within_a_limit() {
    let bytes = valid("3.0");
    assert_eq!(read_validated_entry(bytes.clone(), "mimetype", 100).unwrap(), b"application/epub+zip".to_vec());
    assert_eq!(message(read_validated_entry(bytes.clone(), "mimetype", 3).unwrap_err()), "This EPUB exceeds sTori’s safe import limits.");
    assert_eq!(message(read_validated_entry(bytes, "nope", 100).unwrap_err()), "The EPUB is missing a required file.");
    assert_eq!(message(read_validated_entry(b"junk".to_vec(), "mimetype", 100).unwrap_err()), "This file is not a valid EPUB archive.");
}

#[test]
fn normalizes_archive_paths() {
    assert_eq!(normalize_archive_path("OPS/./text/../a.xhtml").is_err(), true);
    assert_eq!(normalize_archive_path("OPS/./a.xhtml").unwrap(), "OPS/a.xhtml");
    assert_eq!(normalize_archive_path("OPS\\b.xhtml").unwrap(), "OPS/b.xhtml");
    assert!(normalize_archive_path("").is_err());
    assert!(normalize_archive_path("C:x").is_err());
    assert!(normalize_archive_path("\\x").is_err());
    assert!(normalize_archive_path("./").is_err());
}

#[test]
fn resolves_manifest_references() {
    assert_eq!(resolve_epub_path("OPS/book.opf", "text/a.xhtml").unwrap(), "OPS/text/a.xhtml");
    // A package at the archive's root resolves its references from the root.
    assert_eq!(resolve_epub_path("book.opf", "a.xhtml").unwrap(), "a.xhtml");
    assert_eq!(resolve_epub_path("book.opf", "text/./a.xhtml").unwrap(), "text/a.xhtml");
    assert!(resolve_epub_path("book.opf", "../a.xhtml").is_err());
    assert_eq!(resolve_epub_path("OPS/book.opf", "https://x.org/a").unwrap(), "https://x.org/a");
    assert!(resolve_epub_path("OPS/book.opf", "../a.xhtml").is_err());
}

#[test]
fn recognises_resources_and_limits() {
    assert!(is_resource("images/cover.jpeg"));
    assert!(is_resource("fonts/a.woff2"));
    assert!(!is_resource("text/a.xhtml"));
    assert_eq!(message(limit_error()), "This EPUB exceeds sTori’s safe import limits.");
}

#[test]
fn names_container_package_and_spine_failures() {
    let broken_container = epub(vec![("mimetype", b"application/epub+zip".to_vec()), ("META-INF/container.xml", b"<container".to_vec())]);
    assert_eq!(message(validate_new_epub(broken_container).unwrap_err()), "The EPUB has an invalid container document.");
    let broken_package = epub(vec![
        ("mimetype", b"application/epub+zip".to_vec()),
        ("META-INF/container.xml", b"<container><rootfile full-path=\"OPS/book.opf\"/></container>".to_vec()),
        ("OPS/book.opf", b"<package".to_vec()),
    ]);
    assert_eq!(message(validate_new_epub(broken_package).unwrap_err()), "The EPUB has an invalid package document.");
    let broken_spine = epub(vec![
        ("mimetype", b"application/epub+zip".to_vec()),
        ("META-INF/container.xml", b"<container><rootfile full-path=\"OPS/book.opf\"/></container>".to_vec()),
        ("OPS/book.opf", b"<package><manifest><item id=\"a\" href=\"a.xhtml\"/></manifest><spine><itemref idref=\"missing\"/></spine></package>".to_vec()),
        ("OPS/a.xhtml", b"<html/>".to_vec()),
    ]);
    assert_eq!(message(validate_new_epub(broken_spine).unwrap_err()), "The EPUB has a broken reading order.");
    let not_text = epub(vec![("mimetype", vec![0xff, 0xfe, 0x00])]);
    assert_eq!(message(validate_new_epub(not_text).unwrap_err()), "The EPUB contains invalid text data.");
    let oversized_css = epub(vec![("mimetype", b"application/epub+zip".to_vec()), ("style.css", vec![b' '; 2 * 1024 * 1024 + 1])]);
    assert_eq!(message(validate_new_epub(oversized_css).unwrap_err()), "This EPUB exceeds sTori’s safe import limits.");
}

#[test]
fn root_level_packages_reach_the_spine_and_size_checks() {
    let broken = epub(vec![
        ("mimetype", b"application/epub+zip".to_vec()),
        ("META-INF/container.xml", b"<container><rootfile full-path=\"book.opf\"/></container>".to_vec()),
        ("book.opf", b"<package><manifest><item id=\"a\" href=\"a.xhtml\"/></manifest><spine><itemref idref=\"missing\"/></spine></package>".to_vec()),
    ]);
    assert_eq!(message(validate_new_epub(broken).unwrap_err()), "The EPUB has a broken reading order.");
    let bomb = epub(vec![
        ("mimetype", b"application/epub+zip".to_vec()),
        ("META-INF/container.xml", b"<container><rootfile full-path=\"book.opf\"/></container>".to_vec()),
        ("book.opf", b"<package><manifest><item id=\"a\" href=\"a.xhtml\"/></manifest><spine><itemref idref=\"a\"/></spine></package>".to_vec()),
        ("a.xhtml", vec![b'x'; (MAX_XHTML_BYTES + 1) as usize]),
    ]);
    assert_eq!(message(validate_new_epub(bomb).unwrap_err()), "This EPUB exceeds sTori’s safe import limits.");
    let ok = epub(vec![
        ("mimetype", b"application/epub+zip".to_vec()),
        ("META-INF/container.xml", b"<container><rootfile full-path=\"book.opf\"/></container>".to_vec()),
        ("book.opf", b"<package><manifest><item id=\"a\" href=\"a.xhtml\"/></manifest><spine><itemref idref=\"a\"/></spine></package>".to_vec()),
        ("a.xhtml", b"<html/>".to_vec()),
    ]);
    let validated = validate_new_epub(ok).unwrap();
    assert_eq!(validated.opf_path, "book.opf");
}
