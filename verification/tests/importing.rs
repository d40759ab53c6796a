use std::io::Write;
use stori::error::AppError;
use stori::importing::{
    book_folders, checksum_matches, checksum_record, cover_download_allowed, directory_candidate,
    epub_file_stem, file_candidate, import_author, import_cover_target, inspect_epub, is_epub_extension, is_orphan_part,
    metadata_opf, needs_starter_pack, part_file_name, part_job_id, unique_fallback_name,
    ImportedMetadata,
};
use stori::models::CatalogBookDto;
use stori::xml::{XmlAttribute, XmlNode};

fn epub(entries: Vec<(&str, Vec<u8>)>) -> Vec<u8> {
    let mut zip = zip::ZipWriter::new(std::io::Cursor::new(Vec::new()));
    let options = zip::write::SimpleFileOptions::default();
    for (name, bytes) in entries {
        zip.start_file(name, options).unwrap();
        zip.write_all(&bytes).unwrap();
    }
    zip.finish().unwrap().into_inner()
}

fn book(package: &str, extra: Vec<(&str, Vec<u8>)>) -> Vec<u8> {
    let mut entries = vec![
        ("mimetype", b"application/epub+zip".to_vec()),
        ("META-INF/container.xml", b"<container><rootfiles><rootfile full-path=\"OPS/book.opf\"/></rootfiles></container>".to_vec()),
        ("OPS/book.opf", package.as_bytes().to_vec()),
        ("OPS/chapter.xhtml", b"<html><body>ok</body></html>".to_vec()),
    ];
    entries.extend(extra);
    epub(entries)
}

fn record() -> CatalogBookDto {
    CatalogBookDto {
        provider: "Project Gutenberg".into(),
        provider_id: "1342".into(),
        title: "Fallback title".into(),
        authors: vec!["Fallback Author".into()],
        description: Some("From the catalog".into()),
        language: None,
        published: Some("1813".into()),
        subjects: vec!["Fiction".into()],
        cover_url: None,
        download_url: "https://www.gutenberg.org/ebooks/1342.epub3.images".into(),
        source_url: Some("https://www.gutenberg.org/ebooks/1342".into()),
        license_label: "Public domain — Project Gutenberg".into(),
    }
}

#[test]
fn inspects_package_metadata_and_cover() {
    let package = r#"<package><metadata><dc:title xmlns:dc="dc"> Pride </dc:title><dc:creator xmlns:dc="dc">Jane Austen</dc:creator><dc:language xmlns:dc="dc">en-GB</dc:language><dc:identifier xmlns:dc="dc">urn:x</dc:identifier><meta name="cover" content="art"/><meta name="calibre:series" content="Novels"/><meta name="calibre:series_index" content="2"/></metadata><manifest><item id="chapter" href="chapter.xhtml"/><item id="art" href="img/c.png" media-type="image/png"/></manifest><spine><itemref idref="chapter"/></spine></package>"#;
    let bytes = book(package, vec![("OPS/img/c.png", b"PNGDATA".to_vec())]);
    let m = inspect_epub(bytes, &record()).unwrap();
    assert_eq!(m.title, "Pride");
    assert_eq!(m.authors, vec!["Jane Austen".to_string()]);
    assert_eq!(m.language, "en-GB");
    assert_eq!(m.identifier, "urn:x");
    assert_eq!(m.description.as_deref(), Some("From the catalog"));
    assert_eq!(m.published.as_deref(), Some("1813"));
    assert_eq!(m.subjects, vec!["Fiction".to_string()]);
    assert_eq!(m.series.as_deref(), Some("Novels"));
    assert_eq!(m.series_index.as_deref(), Some("2"));
    let (extension, data) = m.cover.unwrap();
    assert_eq!(extension, "png");
    assert_eq!(data, b"PNGDATA".to_vec());
}

#[test]
fn falls_back_to_the_catalog_record() {
    let package = r#"<package><manifest><item id="chapter" href="chapter.xhtml"/><item id="c" href="missing.jpg" properties="nav cover-image"/></manifest><spine><itemref idref="chapter"/></spine></package>"#;
    let m = inspect_epub(book(package, vec![]), &record()).unwrap();
    assert_eq!(m.title, "Fallback title");
    assert_eq!(m.authors, vec!["Fallback Author".to_string()]);
    assert_eq!(m.language, "en");
    assert_eq!(m.identifier, "Project Gutenberg:1342");
    assert!(m.cover.is_none());
    assert!(m.series.is_none());
}

#[test]
fn refuses_invalid_archives_before_reading_them() {
    match inspect_epub(b"plain text".to_vec(), &record()) {
        Err(AppError::BadRequest(m)) => assert_eq!(m, "This file is not a valid EPUB archive."),
        other => panic!("unexpected {other:?}"),
    }
}

fn imported() -> ImportedMetadata {
    ImportedMetadata {
        title: "A & B".into(),
        authors: vec!["X <Y>".into(), "Z".into()],
        description: None,
        language: "en".into(),
        published: Some("1900".into()),
        subjects: vec![],
        identifier: "id:1".into(),
        series: Some("S\"1".into()),
        series_index: Some("2.5".into()),
        cover: None,
    }
}

#[test]
fn writes_an_escaped_package_document() {
    let text = metadata_opf(&imported(), Some("2.5"), &record());
    let expected = "<?xml version=\"1.0\" encoding=\"UTF-8\"?>\n<package xmlns=\"http://www.idpf.org/2007/opf\" version=\"3.0\" unique-identifier=\"id\">\n  <metadata xmlns:dc=\"http://purl.org/dc/elements/1.1/\">\n    <dc:identifier id=\"id\">id:1</dc:identifier>\n    <dc:title>A &amp; B</dc:title>\n    <dc:creator>X &lt;Y&gt;</dc:creator>\n    <dc:creator>Z</dc:creator>\n    <dc:date>1900</dc:date>\n    <dc:language>en</dc:language>\n    <dc:description></dc:description>\n    <meta name=\"calibre:series\" content=\"S&quot;1\"/>\n    <meta name=\"calibre:series_index\" content=\"2.5\"/>\n    <meta name=\"stori:source\" content=\"https://www.gutenberg.org/ebooks/1342\"/>\n  </metadata>\n</package>\n";
    assert_eq!(text, expected);
}

#[test]
fn names_imported_books_safely() {
    assert_eq!(import_author(&vec![]), "Unknown Author");
    assert_eq!(import_author(&vec!["A".into(), "B".into()]), "A");
    assert_eq!(book_folders(&vec!["Mary Shelley".into()], "Frankenstein: or?"), ("Mary Shelley".to_string(), "Frankenstein_ or_".to_string()));
    assert_eq!(epub_file_stem("Frankenstein", "Mary Shelley"), "Frankenstein - Mary Shelley");
    assert_eq!(directory_candidate("Book", 1), "Book");
    assert_eq!(directory_candidate("Book", 2), "Book (2)");
    assert_eq!(file_candidate("Stem", "epub", 1), "Stem.epub");
    assert_eq!(file_candidate("Stem", "epub", 999), "Stem (999).epub");
    assert_eq!(unique_fallback_name("Stem", "u-1", Some("epub")), "Stem-u-1.epub");
    assert_eq!(unique_fallback_name("Book", "u-1", None), "Book-u-1");
}

#[test]
fn finds_a_recorded_checksum_again() {
    let digest = "ab12";
    let record = checksum_record(digest);
    assert_eq!(record, "ab12\n");
    assert!(checksum_matches(&record, digest));
    assert!(!checksum_matches("ab13\n", digest));
}

#[test]
fn recognises_partial_files_of_jobs() {
    let name = part_file_name("job-1");
    assert_eq!(name, "job-1.epub.part");
    assert_eq!(part_job_id(&name).as_deref(), Some("job-1"));
    assert_eq!(part_job_id("job-1.epub"), None);
    assert!(!is_orphan_part(&name, &vec!["job-1".into()]));
    assert!(is_orphan_part(&name, &vec!["job-2".into()]));
    assert!(!is_orphan_part("notes.txt", &vec![]));
}

#[test]
fn small_import_decisions() {
    assert!(needs_starter_pack(None));
    assert!(needs_starter_pack(Some("0")));
    assert!(!needs_starter_pack(Some("1")));
    assert!(is_epub_extension(Some("EPUB")));
    assert!(!is_epub_extension(Some("pdf")));
    assert!(!is_epub_extension(None));
    assert!(cover_download_allowed(10 * 1024 * 1024));
    assert!(!cover_download_allowed(10 * 1024 * 1024 + 1));
}

fn item(attributes: &[(&str, &str)]) -> XmlNode {
    XmlNode {
        is_element: true,
        name: "item".to_string(),
        attributes: attributes
            .iter()
            .map(|(k, v)| XmlAttribute { namespace: None, name: k.to_string(), value: v.to_string() })
            .collect(),
        text: None,
    }
}

#[test]
fn finds_the_cover_of_parsed_package_nodes() {
    let nodes = vec![item(&[("id", "c"), ("href", "../img/c.png"), ("media-type", "image/png"), ("properties", "cover-image")])];
    let (path, media) = import_cover_target(&nodes, "OPS/content.opf");
    assert_eq!(path, Some("img/c.png".to_string()));
    assert_eq!(media, "image/png");
    let (none, default_media) = import_cover_target(&vec![item(&[("id", "c"), ("href", "c.png")])], "content.opf");
    assert_eq!(none, None);
    assert_eq!(default_media, "image/jpeg");
}
