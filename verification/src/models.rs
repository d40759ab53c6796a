//! The records that the server exchanges with its clients.

use vstd::prelude::*;

verus! {

#[derive(Debug)]
pub struct LibraryDto {
    pub id: i64,
    pub name: String,
    pub path: String,
    pub book_count: i64,
    pub last_scanned_at: Option<String>,
    pub managed: bool,
}

#[derive(Debug)]
pub struct AnnotationDto {
    pub id: i64,
    pub book_id: i64,
    pub kind: String,
    pub locator: String,
    pub text: Option<String>,
    pub note: Option<String>,
    pub created_at: String,
}

#[derive(Debug)]
pub struct AddLibraryRequest {
    pub name: String,
    pub path: String,
}

#[derive(Debug)]
pub struct CollectionRequest {
    pub name: String,
    pub description: Option<String>,
    pub book_ids: Vec<i64>,
}

#[derive(Debug)]
pub struct AnnotationRequest {
    pub kind: String,
    pub locator: String,
    pub text: Option<String>,
    pub note: Option<String>,
}

#[derive(Debug)]
pub struct PairRequest {
    pub code: String,
    pub device_name: Option<String>,
}

#[derive(Debug)]
pub struct PairedDeviceDto {
    pub id: String,
    pub name: String,
    pub created_at: String,
    pub last_seen_at: String,
    pub last_ip: Option<String>,
    pub user_agent: Option<String>,
}

#[derive(Debug)]
pub struct BackupDto {
    pub file_name: String,
    pub path: String,
    pub size_bytes: u64,
    pub created_at: String,
}

#[derive(Debug)]
pub struct LibraryDiagnosticDto {
    pub id: i64,
    pub name: String,
    pub path: String,
    pub available: bool,
    pub book_count: i64,
}

#[derive(Debug)]
pub struct DiagnosticsDto {
    pub database_status: String,
    pub schema_version: i64,
    pub database_path: String,
    pub backup_directory: String,
    pub managed_library_free_bytes: Option<u64>,
    pub firewall_rule_detected: Option<bool>,
    pub firewall_guidance: String,
    pub libraries: Vec<LibraryDiagnosticDto>,
}

#[derive(Debug)]
pub struct ScanResult {
    pub indexed: usize,
    pub warnings: Vec<String>,
}

#[derive(Debug)]
pub struct CatalogBookDto {
    pub provider: String,
    pub provider_id: String,
    pub title: String,
    pub authors: Vec<String>,
    pub description: Option<String>,
    pub language: Option<String>,
    pub published: Option<String>,
    pub subjects: Vec<String>,
    pub cover_url: Option<String>,
    pub download_url: String,
    pub source_url: Option<String>,
    pub license_label: String,
}

#[derive(Debug)]
pub struct CatalogSearchDto {
    pub results: Vec<CatalogBookDto>,
    pub warnings: Vec<String>,
    pub next_page: Option<u32>,
}

#[derive(Debug)]
pub struct QueueDownloadRequest {
    pub library_id: i64,
    pub book: CatalogBookDto,
}

} // verus!
