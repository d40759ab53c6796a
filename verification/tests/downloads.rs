use stori::downloads::{
    allowed_url, cancel_change, check_space, gutenberg_results, interrupted_change, pause_change,
    range_header, records_failure, resolve_epub_path, resume_change, safe_name, search_page,
    search_query, starter_books, transfer_window, validate_download_url, xml, TransferAction,
    TransferState, MAX_EPUB_BYTES,
};
use stori::error::AppError;
use stori::json::Json;

#[test]
fn sanitizes_windows_names() {
    assert_eq!(safe_name("A: Book?"), "A_ Book_");
}

#[test]
fn rejects_unapproved_downloads() {
    assert!(validate_download_url("http://example.com/a.epub").is_err());
}

#[test]
fn escapes_metadata() {
    assert!(xml("A & <B>").contains("&amp;"));
}

#[test]
fn safe_name_trims_dots_limits_length_and_never_empties() {
    assert_eq!(safe_name("  Title...  "), "Title");
    assert_eq!(safe_name("..."), "Untitled");
    assert_eq!(safe_name("   "), "Untitled");
    assert_eq!(safe_name("a\u{7}b|c*d"), "a_b_c_d");
    let long = "x".repeat(150);
    assert_eq!(safe_name(&long).chars().count(), 100);
}

#[test]
fn safe_names_hold_no_reserved_characters() {
    for input in ["<a>", "b:c", "d\"e", "f/g\\h", "i|j?k*", "tab\tline\nend"] {
        let name = safe_name(input);
        assert!(!name.chars().any(|c| "<>:\"/\\|?*".contains(c) || c.is_control()), "{name}");
    }
}

#[test]
fn escapes_every_markup_character() {
    assert_eq!(xml("A & <B> \"c\" 'd'"), "A &amp; &lt;B&gt; &quot;c&quot; &apos;d&apos;");
    assert_eq!(xml("plain"), "plain");
}

#[test]
fn resolves_cover_paths_against_the_package_folder() {
    assert_eq!(resolve_epub_path("OPS/book.opf", "images/cover.jpg"), "OPS/images/cover.jpg");
    assert_eq!(resolve_epub_path("OPS/book.opf", "../cover.jpg"), "cover.jpg");
    assert_eq!(resolve_epub_path("book.opf", "./a//b.png"), "a/b.png");
    assert_eq!(resolve_epub_path("a/b/c.opf", "../../../x.png"), "x.png");
}

#[test]
fn approves_only_https_catalog_hosts() {
    assert!(allowed_url("https", Some("www.gutenberg.org")));
    assert!(allowed_url("https", Some("standardebooks.org")));
    assert!(!allowed_url("http", Some("gutenberg.org")));
    assert!(!allowed_url("https", Some("example.com")));
    assert!(!allowed_url("https", None));
    assert!(validate_download_url("https://standardebooks.org/ebooks/x.epub").is_ok());
    match validate_download_url("not a url") {
        Err(AppError::BadRequest(m)) => assert_eq!(m, "Invalid download URL"),
        other => panic!("unexpected {other:?}"),
    }
    match validate_download_url("https://example.com/a.epub") {
        Err(AppError::BadRequest(m)) => assert_eq!(m, "Download host is not approved"),
        other => panic!("unexpected {other:?}"),
    }
}

#[test]
fn search_needs_two_characters_and_a_page() {
    assert_eq!(search_query("  dickens ").unwrap(), "dickens");
    match search_query(" a ") {
        Err(AppError::BadRequest(m)) => assert_eq!(m, "Enter at least two characters"),
        other => panic!("unexpected {other:?}"),
    }
    assert_eq!(search_page(0), 1);
    assert_eq!(search_page(3), 3);
}

#[test]
fn starter_shelf_lists_two_standard_ebooks() {
    let books = starter_books();
    assert_eq!(books[0].title, "The Great Gatsby");
    assert_eq!(books[0].authors, vec!["F. Scott Fitzgerald".to_string()]);
    assert_eq!(books[0].source_url.as_deref(), Some("https://standardebooks.org/ebooks/f-scott-fitzgerald/the-great-gatsby"));
    assert_eq!(books[1].title, "Frankenstein");
    assert_eq!(books[1].subjects, vec!["Horror".to_string(), "Science Fiction".to_string()]);
    assert_eq!(books[1].language.as_deref(), Some("en-US"));
    for book in &books {
        assert_eq!(book.provider, "Standard Ebooks");
        assert!(validate_download_url(&book.download_url).is_ok());
    }
}

#[test]
fn job_status_changes_follow_the_lifecycle() {
    assert_eq!(pause_change("queued").unwrap().status, "paused");
    assert!(pause_change("downloading").is_none());
    let cancelled = cancel_change("downloading").unwrap();
    assert_eq!((cancelled.status.as_str(), cancelled.message.as_str()), ("cancelled", "Cancelled"));
    assert!(cancel_change("completed").is_none());
    assert!(cancel_change("cancelled").is_none());
    assert_eq!(resume_change("failed").unwrap().status, "queued");
    assert_eq!(resume_change("paused").unwrap().message, "Waiting to download");
    assert!(resume_change("cancelled").is_err());
    assert_eq!(interrupted_change("verifying").unwrap().status, "paused");
    assert!(interrupted_change("completed").is_none());
    assert!(records_failure(false, false));
    assert!(!records_failure(true, false));
    assert!(!records_failure(false, true));
}

#[test]
fn a_cancelled_job_cannot_be_resumed() {
    let c = cancel_change("queued").unwrap();
    assert!(resume_change(&c.status).is_err());
    assert!(cancel_change(&c.status).is_none());
}

#[test]
fn resumes_partial_downloads_within_the_limit() {
    assert_eq!(range_header(0), None);
    assert_eq!(range_header(1024).as_deref(), Some("bytes=1024-"));
    assert_eq!(transfer_window(1024, true, Some(100)).unwrap(), (1024, 1124));
    assert_eq!(transfer_window(1024, false, Some(100)).unwrap(), (0, 100));
    assert_eq!(transfer_window(0, true, None).unwrap(), (0, 0));
    match transfer_window(0, false, Some(MAX_EPUB_BYTES + 1)) {
        Err(AppError::BadRequest(m)) => assert_eq!(m, "EPUB is larger than the 200 MB safety limit"),
        other => panic!("unexpected {other:?}"),
    }
}

#[test]
fn asks_for_room_in_whole_megabytes() {
    assert!(check_space(10, 0, 17 * 1024 * 1024).is_ok());
    match check_space(1024 * 1024, 0, 0) {
        Err(AppError::BadRequest(m)) => assert_eq!(m, "Not enough disk space. sTori needs about 17 MB free to finish this import."),
        other => panic!("unexpected {other:?}"),
    }
    match check_space(1, 0, 0) {
        Err(AppError::BadRequest(m)) => assert!(m.contains("about 17 MB")),
        other => panic!("unexpected {other:?}"),
    }
}

#[test]
fn transfer_steps_write_pause_cancel_and_stop_at_the_limit() {
    let mut s = TransferState::new(0, 0);
    assert_eq!(s.step(false, false, 100, 10), TransferAction::Write { persist: false });
    assert_eq!(s.downloaded, 100);
    assert_eq!(s.step(false, false, 100, 400), TransferAction::Write { persist: true });
    assert_eq!((s.downloaded, s.persisted_bytes, s.persisted_at_ms), (200, 200, 400));
    assert_eq!(s.step(false, false, 512 * 1024, 401), TransferAction::Write { persist: true });
    assert_eq!(s.step(false, true, 1, 402), TransferAction::Pause);
    assert_eq!(s.step(true, true, 1, 402), TransferAction::Cancel);
    let mut full = TransferState::new(MAX_EPUB_BYTES - 1, 0);
    assert_eq!(full.step(false, false, 2, 1), TransferAction::TooLarge);
    assert_eq!(full.downloaded, MAX_EPUB_BYTES - 1);
}

fn s(v: &str) -> Json {
    Json::String(v.to_string())
}

#[test]
fn reads_gutendex_results() {
    let with_epub = Json::Object(vec![
        ("id".to_string(), Json::Number(Some(1342))),
        ("title".to_string(), s("Pride and Prejudice")),
        ("authors".to_string(), Json::Array(vec![Json::Object(vec![("name".to_string(), s("Austen, Jane"))])])),
        ("languages".to_string(), Json::Array(vec![s("en")])),
        ("subjects".to_string(), Json::Array(vec![s("Fiction"), Json::Null])),
        ("formats".to_string(), Json::Object(vec![
            ("image/jpeg".to_string(), s("https://www.gutenberg.org/cache/1342.jpg")),
            ("application/epub+zip".to_string(), s("https://www.gutenberg.org/ebooks/1342.epub3.images")),
        ])),
    ]);
    let without_epub = Json::Object(vec![
        ("id".to_string(), Json::Number(Some(7))),
        ("formats".to_string(), Json::Object(vec![("text/plain".to_string(), s("x"))])),
    ]);
    let other_epub = Json::Object(vec![
        ("id".to_string(), Json::Number(None)),
        ("formats".to_string(), Json::Object(vec![("application/x-epub-old".to_string(), s("https://gutenberg.org/old.epub"))])),
    ]);
    let response = Json::Object(vec![
        ("next".to_string(), s("https://gutendex.com/books?page=3")),
        ("results".to_string(), Json::Array(vec![with_epub, without_epub, other_epub])),
    ]);
    let (books, next) = gutenberg_results(&response, 2);
    assert_eq!(next, Some(3));
    assert_eq!(books.len(), 2);
    assert_eq!(books[0].provider, "Project Gutenberg");
    assert_eq!(books[0].provider_id, "1342");
    assert_eq!(books[0].title, "Pride and Prejudice");
    assert_eq!(books[0].authors, vec!["Austen, Jane".to_string()]);
    assert_eq!(books[0].language.as_deref(), Some("en"));
    assert_eq!(books[0].subjects, vec!["Fiction".to_string()]);
    assert_eq!(books[0].cover_url.as_deref(), Some("https://www.gutenberg.org/cache/1342.jpg"));
    assert_eq!(books[0].download_url, "https://www.gutenberg.org/ebooks/1342.epub3.images");
    assert_eq!(books[0].source_url.as_deref(), Some("https://www.gutenberg.org/ebooks/1342"));
    assert_eq!(books[0].license_label, "Public domain — Project Gutenberg");
    assert_eq!(books[1].provider_id, "0");
    assert_eq!(books[1].title, "Untitled");
    assert_eq!(books[1].download_url, "https://gutenberg.org/old.epub");
    let (none, last) = gutenberg_results(&Json::Object(vec![("next".to_string(), Json::Null)]), 1);
    assert!(none.is_empty());
    assert_eq!(last, None);
}

#[test]
fn reports_search_failures() {
    match stori::downloads::search_timed_out() {
        AppError::Internal(m) => assert_eq!(m, "Project Gutenberg took too long to respond. Please try again."),
        other => panic!("unexpected {other:?}"),
    }
    match stori::downloads::search_failure(None) {
        AppError::Internal(m) => assert_eq!(m, "Project Gutenberg is temporarily unavailable. Please try again."),
        other => panic!("unexpected {other:?}"),
    }
    assert!(matches!(stori::downloads::search_failure(Some(AppError::NotFound)), AppError::NotFound));
}

#[test]
fn lists_at_most_twenty_catalog_books() {
    let item = |i: i64| {
        Json::Object(vec![
            ("id".to_string(), Json::Number(Some(i))),
            ("formats".to_string(), Json::Object(vec![("application/epub+zip".to_string(), s("https://www.gutenberg.org/x.epub"))])),
        ])
    };
    let response = Json::Object(vec![("results".to_string(), Json::Array((0..25).map(item).collect()))]);
    let (books, next) = gutenberg_results(&response, 1);
    assert_eq!(books.len(), 20);
    assert_eq!(books[19].provider_id, "19");
    assert_eq!(next, None);
}

#[test]
fn xml_escapes_each_ampersand_once() {
    assert_eq!(xml("<"), "&lt;");
    assert_eq!(xml("&lt;"), "&amp;lt;");
    assert_eq!(xml("&&"), "&amp;&amp;");
}
