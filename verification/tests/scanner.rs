use std::io::Write;
use stori::xml::{XmlAttribute, XmlNode};
use stori::scanner::{
    book_files, clean_title, cover_href_of_nodes, metadata_of_nodes, complete_metadata, cover_extension, cover_file_names, cover_href, filename_index_text,
    is_book_extension, merge_metadata, metadata_file_names, order_media, parse_epub,
    parse_metadata_xml, scan_warnings, zip_join, Metadata,
};

fn filename_index(value: &str) -> Option<f64> {
    filename_index_text(value).and_then(|text| text.parse().ok())
}

#[test]
fn cleans_numbered_title() {
    assert_eq!(clean_title("02 - Prince Caspian"), "Prince Caspian");
}

#[test]
fn gets_series_index() {
    assert_eq!(filename_index("02 - Prince Caspian"), Some(2.0));
}

#[test]
fn title_cleaning_and_series_numbers_edge_cases() {
    assert_eq!(clean_title("  03_the_silver_chair "), "the silver chair");
    assert_eq!(clean_title("2001"), "");
    assert_eq!(filename_index_text("  1.5 Part").as_deref(), Some("1.5"));
    assert_eq!(filename_index_text("Part 2"), None);
    assert_eq!(filename_index("1.2.3 x"), None);
}

#[test]
fn joins_archive_paths() {
    assert_eq!(zip_join("OEBPS/content.opf", "images/cover.png"), "OEBPS/images/cover.png");
    assert_eq!(zip_join("OEBPS/content.opf", "..\\cover.png"), "cover.png");
    assert_eq!(zip_join("content.opf", "./a.png"), "a.png");
}

#[test]
fn picks_cover_extensions() {
    assert_eq!(cover_extension("images/cover.PNG", b"x"), "png");
    assert_eq!(cover_extension("cover", b"\x89PNG\r\n\x1a\nrest"), "png");
    assert_eq!(cover_extension("cover", b"jpeg bytes"), "jpg");
    assert_eq!(cover_extension("cover.webp", b""), "webp");
}

#[test]
fn reads_package_metadata() {
    let xml = r#"<package><metadata><dc:title xmlns:dc="dc"> Title </dc:title><dc:creator xmlns:dc="dc">A</dc:creator><dc:creator xmlns:dc="dc">B</dc:creator><dc:subject xmlns:dc="dc">Fantasy</dc:subject><meta name="calibre:series" content="Narnia"/><meta name="calibre:series_index" content="4"/></metadata></package>"#;
    let m = parse_metadata_xml(xml).unwrap();
    assert_eq!(m.title, "Title");
    assert_eq!(m.authors, vec!["A".to_string(), "B".to_string()]);
    assert_eq!(m.tags, vec!["Fantasy".to_string()]);
    assert_eq!(m.series.as_deref(), Some("Narnia"));
    assert_eq!(m.series_index_text.as_deref(), Some("4"));
    assert!(parse_metadata_xml("<package").is_none());
}

fn empty_metadata() -> Metadata {
    Metadata {
        title: String::new(),
        subtitle: None,
        authors: Vec::new(),
        description: None,
        published: None,
        tags: Vec::new(),
        identifier: None,
        series: None,
        series_index_text: None,
    }
}

#[test]
fn merges_and_completes_metadata() {
    let mut target = empty_metadata();
    target.title = "Own".into();
    let mut fallback = empty_metadata();
    fallback.title = "Other".into();
    fallback.authors = vec!["Fallback Author".into()];
    merge_metadata(&mut target, &fallback);
    assert_eq!(target.title, "Own");
    assert_eq!(target.authors, vec!["Fallback Author".to_string()]);

    let mut bare = empty_metadata();
    let folders = vec!["C. S. Lewis".to_string(), "Narnia".to_string(), "04 Prince Caspian".to_string()];
    complete_metadata(&mut bare, Some("04 - Prince Caspian"), &folders);
    assert_eq!(bare.title, "Prince Caspian");
    assert_eq!(bare.authors, vec!["C. S. Lewis".to_string()]);
    assert_eq!(bare.series.as_deref(), Some("Narnia"));
}

#[test]
fn finds_cover_items() {
    assert_eq!(cover_href(r#"<package><manifest><item id="c" href="c.jpg" properties="cover-image"/></manifest></package>"#).as_deref(), Some("c.jpg"));
    assert_eq!(cover_href(r#"<package><metadata><meta name="cover" content="img"/></metadata><manifest><item id="img" href="i.png"/></manifest></package>"#).as_deref(), Some("i.png"));
    assert_eq!(cover_href(r#"<package><manifest><item id="MyCover" href="m.jpg"/></manifest></package>"#).as_deref(), Some("m.jpg"));
    assert_eq!(cover_href("<package/>"), None);
}

#[test]
fn orders_formats_and_warns() {
    let exts = vec!["pdf".to_string(), "mobi".to_string(), "epub".to_string(), "pdf".to_string()];
    assert_eq!(order_media(&exts), vec![2, 0, 3, 1]);
    assert!(is_book_extension("epub"));
    assert!(!is_book_extension("mobi"));
    assert_eq!(scan_warnings("/b/x.epub", false, false), vec!["No readable metadata found: /b/x.epub".to_string(), "No cover found: /b/x.epub".to_string()]);
    assert!(scan_warnings("/b/x.epub", true, true).is_empty());
    assert_eq!(metadata_file_names(), vec!["metadata.opf".to_string(), "content.opf".to_string()]);
    assert_eq!(cover_file_names()[0], "cover.jpg");
}

#[test]
fn parses_embedded_epub_metadata_and_cover() {
    let mut zip = zip::ZipWriter::new(std::io::Cursor::new(Vec::new()));
    let options = zip::write::SimpleFileOptions::default();
    zip.start_file("META-INF/container.xml", options).unwrap();
    zip.write_all(br#"<?xml version="1.0"?><container><rootfiles><rootfile full-path="OEBPS/content.opf"/></rootfiles></container>"#).unwrap();
    zip.start_file("OEBPS/content.opf", options).unwrap();
    zip.write_all(br#"<?xml version="1.0"?><package><metadata><dc:title xmlns:dc="dc">Embedded title</dc:title><dc:creator xmlns:dc="dc">Embedded author</dc:creator><meta name="cover" content="cover-image"/></metadata><manifest><item id="cover-image" href="images/cover.png" media-type="image/png"/></manifest></package>"#).unwrap();
    zip.start_file("OEBPS/images/cover.png", options).unwrap();
    zip.write_all(b"not-a-real-png-but-a-cover-cache-test").unwrap();
    let bytes = zip.finish().unwrap().into_inner();
    let epub = parse_epub(bytes).unwrap();
    assert_eq!(epub.metadata.title, "Embedded title");
    assert_eq!(epub.metadata.authors, vec!["Embedded author".to_string()]);
    let cover = epub.cover.unwrap();
    assert_eq!(cover.extension, "png");
    assert_eq!(cover.bytes, b"not-a-real-png-but-a-cover-cache-test".to_vec());
    assert!(parse_epub(b"nothing".to_vec()).is_none());
}

fn element(name: &str, attributes: &[(&str, &str)], text: Option<&str>) -> XmlNode {
    XmlNode {
        is_element: true,
        name: name.to_string(),
        attributes: attributes
            .iter()
            .map(|(k, v)| XmlAttribute { namespace: None, name: k.to_string(), value: v.to_string() })
            .collect(),
        text: text.map(str::to_string),
    }
}

#[test]
fn picks_the_primary_file_and_alternates_of_a_folder() {
    let files = vec![
        ("pdf".to_string(), "/lib/a/book.pdf".to_string()),
        ("epub".to_string(), "/lib/a/book.epub".to_string()),
        ("pdf".to_string(), "/lib/a/other.pdf".to_string()),
    ];
    let (primary, format, alternates) = book_files(&files).unwrap();
    assert_eq!(primary, 1);
    assert_eq!(format, "epub");
    assert_eq!(
        alternates,
        vec![
            ("pdf".to_string(), "/lib/a/book.pdf".to_string()),
            ("pdf".to_string(), "/lib/a/other.pdf".to_string()),
        ]
    );
    assert!(book_files(&Vec::new()).is_none());
}

#[test]
fn reads_metadata_and_cover_from_parsed_nodes() {
    let nodes = vec![
        element("package", &[], None),
        element("title", &[], Some("Dune")),
        element("creator", &[], Some("Frank Herbert")),
        element("meta", &[("name", "cover"), ("content", "img")], None),
        element("item", &[("id", "img"), ("href", "images/c.jpg")], None),
    ];
    let m = metadata_of_nodes(&nodes);
    assert_eq!(m.title, "Dune");
    assert_eq!(m.authors, vec!["Frank Herbert".to_string()]);
    assert_eq!(cover_href_of_nodes(&nodes), Some("images/c.jpg".to_string()));
    let no_cover = vec![element("package", &[], None), element("title", &[], Some("Dune"))];
    assert_eq!(cover_href_of_nodes(&no_cover), None);
}
