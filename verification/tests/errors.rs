use stori::digest::{content_checksum, hex_string};
use stori::error::{bad_request, AppError};
use stori::scanner::cover_cache_file_name;

#[test]
fn maps_errors_to_responses() {
    let cases = vec![
        (bad_request("Nope"), 400, "Nope", "Nope"),
        (AppError::Unauthorized, 401, "Not authorized", "Not authorized"),
        (AppError::NotFound, 404, "Not found", "Not found"),
        (AppError::Database("locked".into()), 500, "Something went wrong on the sTori server. Please try again.", "Database error: locked"),
        (AppError::Io("denied".into()), 500, "Something went wrong on the sTori server. Please try again.", "File error: denied"),
        (AppError::Internal("boom".into()), 500, "Something went wrong on the sTori server. Please try again.", "boom"),
    ];
    for (error, status, public, described) in cases {
        assert_eq!(error.status_code(), status);
        assert_eq!(error.is_server_error(), status >= 500);
        assert_eq!(error.public_message(), public);
        assert_eq!(error.describe(), described);
    }
}

#[test]
fn digests_content_in_hex() {
    assert_eq!(hex_string(&[0, 15, 255]), "000fff");
    assert_eq!(content_checksum(b"abc"), "ba7816bf8f01cfea414140de5dae2223b00361a396177a9cb410ff61f20015ad");
    assert_eq!(content_checksum(b""), "e3b0c44298fc1c149afbf4c8996fb92427ae41e4649b934ca495991b7852b855");
}

#[test]
fn names_cached_covers_by_digest() {
    let plain = cover_cache_file_name("/books/a.epub", None, "png");
    assert!(plain.ends_with(".png"));
    assert_eq!(plain.len(), 64 + 4);
    let with_info = cover_cache_file_name("/books/a.epub", Some((10, Some(20))), "png");
    assert_ne!(plain, with_info);
    assert_ne!(with_info, cover_cache_file_name("/books/a.epub", Some((10, None)), "png"));
}
