use stori::db::{
    annotation_kind, book_query, bookmark_locator, books_to_prune, backups_to_prune, check_library_folder,
    check_not_queued, check_removable, collection_name, collection_positions, database_stem,
    display_path, firewall_guidance, firewall_rule_detected, integrity_check, is_backup_file,
    library_name, manual_backup_name, migration_backup_name, migration_plan, stale_since,
    token_needs_touch, LATEST_SCHEMA_VERSION,
};
use stori::error::AppError;

fn bad(r: Result<impl std::fmt::Debug, AppError>) -> String {
    match r {
        Err(AppError::BadRequest(m)) => m,
        other => panic!("unexpected {other:?}"),
    }
}

#[test]
fn plans_migrations_from_any_older_schema() {
    let fresh = migration_plan(0, false).unwrap();
    assert!(!fresh.backup);
    assert_eq!(fresh.steps, vec![1, 2, 3, 4, 5]);
    let legacy = migration_plan(1, true).unwrap();
    assert!(legacy.backup);
    assert_eq!(legacy.steps, vec![2, 3, 4, 5]);
    let current = migration_plan(LATEST_SCHEMA_VERSION, true).unwrap();
    assert!(!current.backup);
    assert!(current.steps.is_empty());
    assert_eq!(migration_plan(-3, false).unwrap().steps, vec![1, 2, 3, 4, 5]);
    match migration_plan(6, true) {
        Err(AppError::Internal(m)) => assert_eq!(m, "This database belongs to a newer sTori version (schema 6)"),
        other => panic!("unexpected {:?}", other.map(|p| p.steps)),
    }
}

#[test]
fn checks_integrity_answers() {
    assert!(integrity_check("ok").is_ok());
    match integrity_check("row 3 missing") {
        Err(AppError::Internal(m)) => assert_eq!(m, "Database integrity check failed: row 3 missing"),
        other => panic!("unexpected {other:?}"),
    }
}

#[test]
fn names_backups() {
    assert_eq!(database_stem(Some("legacy")), "legacy");
    assert_eq!(database_stem(None), "stori");
    assert_eq!(migration_backup_name("legacy", 1, "20260101-000000"), "legacy-schema-1-20260101-000000.db");
    assert_eq!(manual_backup_name("20260101-000000"), "stori-manual-20260101-000000.db");
    assert!(is_backup_file(Some("db")));
    assert!(!is_backup_file(Some("DB")));
    assert!(!is_backup_file(None));
}

#[test]
fn prunes_all_but_the_newest_backups() {
    let names: Vec<String> = ["stori-manual-3.db", "other.db", "stori-manual-1.db", "stori-manual-2.db", "stori-manual-4.txt", "stori-manual-5.db"]
        .iter()
        .map(|s| s.to_string())
        .collect();
    assert_eq!(backups_to_prune(&names, "stori-manual-", 2), vec!["stori-manual-1.db".to_string(), "stori-manual-2.db".to_string()]);
    assert!(backups_to_prune(&names, "stori-manual-", 10).is_empty());
    assert_eq!(backups_to_prune(&names, "stori-manual-", 0).len(), 4);
}

#[test]
fn shows_paths_and_firewall_state() {
    assert_eq!(display_path("\\\\?\\C:\\Books", true), "C:\\Books");
    assert_eq!(display_path("\\\\?\\C:\\Books", false), "\\\\?\\C:\\Books");
    assert_eq!(display_path("/home/books", true), "/home/books");
    assert_eq!(firewall_rule_detected(Some("C:\\Apps\\sTori.exe"), Some((true, "Program: c:\\apps\\stori.exe"))), Some(true));
    assert_eq!(firewall_rule_detected(Some("C:\\Apps\\sTori.exe"), Some((true, "nothing"))), Some(false));
    assert_eq!(firewall_rule_detected(Some("x"), Some((false, "x"))), None);
    assert_eq!(firewall_rule_detected(None, Some((true, "x"))), None);
    assert!(firewall_guidance(true).starts_with("For iPhone access"));
    assert_eq!(firewall_guidance(false), "Allow incoming connections to sTori on TCP port 1822 in your system firewall.");
}

#[test]
fn checks_names_and_kinds() {
    assert_eq!(library_name("  Home  ").unwrap(), "Home");
    assert_eq!(bad(library_name("   ")), "A library needs a name");
    assert_eq!(bad(collection_name("")), "Collection name is required");
    assert_eq!(bookmark_locator(" epubcfi(/6/2) ").unwrap(), "epubcfi(/6/2)");
    assert_eq!(bad(bookmark_locator("")), "A bookmark location is required");
    assert_eq!(annotation_kind("bookmark").unwrap(), true);
    assert_eq!(annotation_kind("note").unwrap(), false);
    assert_eq!(bad(annotation_kind("doodle")), "Invalid annotation kind");
    assert_eq!(bad(check_library_folder("/nope", None)), "Library folder does not exist: /nope");
    assert_eq!(bad(check_library_folder("/file", Some(false))), "A library must be a directory");
    assert!(check_library_folder("/dir", Some(true)).is_ok());
    assert_eq!(bad(check_not_queued(true)), "This edition is already in the download queue");
}

#[test]
fn never_removes_the_managed_library() {
    assert_eq!(bad(check_removable(7, Some("7"))), "The managed sTori Books library cannot be removed.");
    assert!(check_removable(8, Some("7")).is_ok());
    assert!(check_removable(-2, None).is_ok());
}

#[test]
fn lists_collection_positions_and_queries() {
    assert_eq!(collection_positions(&vec![9, 4, 7]), vec![(9, 0), (4, 1), (7, 2)]);
    let text = book_query("  \"pride\" ", None);
    assert!(text.full_text);
    assert_eq!(text.value, "pride*");
    let status = book_query("  ", Some("reading"));
    assert!(!status.full_text);
    assert_eq!(status.value, "reading");
    assert_eq!(book_query("", None).value, "");
}

#[test]
fn prunes_books_whose_folders_were_not_seen() {
    let existing = vec![(1, "/a".to_string()), (2, "/b".to_string()), (3, "/c".to_string())];
    let seen = vec!["/b".to_string()];
    assert_eq!(books_to_prune(&existing, &seen, true), vec![1, 3]);
    assert!(books_to_prune(&existing, &seen, false).is_empty());
}

#[test]
fn refreshes_tokens_every_five_minutes() {
    let then = 1_767_225_600i64;
    assert!(!token_needs_touch("2026-01-01T00:00:00Z", then + 299, 999_999_999));
    assert!(token_needs_touch("2026-01-01T00:00:00Z", then + 300, 0));
    assert!(!token_needs_touch("2026-01-01T01:00:00+01:00", then + 10, 0));
    assert!(token_needs_touch("yesterday", then, 0));
    assert!(stale_since(None, 0, 0));
    assert!(!stale_since(Some((100, 500)), 50, 0));
}

#[test]
fn lists_backups_newest_first_keeping_ties_in_order() {
    let created: Vec<String> = ["2026-01-02T00:00:00Z", "2026-01-03T00:00:00Z", "2026-01-02T00:00:00Z", "2026-01-01T00:00:00Z"]
        .iter()
        .map(|s| s.to_string())
        .collect();
    assert_eq!(stori::db::newest_first(&created), vec![1, 0, 2, 3]);
    assert!(stori::db::newest_first(&Vec::new()).is_empty());
}

#[test]
fn pruning_leaves_exactly_the_newest_backups() {
    let names: Vec<String> = (1..=15).map(|i| format!("stori-manual-202601{:02}-000000.db", i)).collect();
    let pruned = backups_to_prune(&names, "stori-manual-", 10);
    assert_eq!(pruned.len(), 5);
    assert_eq!(pruned[0], "stori-manual-20260101-000000.db");
    assert_eq!(pruned[4], "stori-manual-20260105-000000.db");
}
