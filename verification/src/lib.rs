//! Verified core of the sTori ebook server: text handling, EPUB archive
//! validation, metadata extraction, download bookkeeping and the small
//! decisions that the server makes around its catalog and reader pairing.

pub mod text;
pub mod error;
pub mod xml;
pub mod zipfile;
pub mod paths;
pub mod epub_validation;
pub mod opf;
pub mod scanner;
pub mod digest;
pub mod models;
pub mod downloads;
pub mod json;
pub mod importing;
pub mod db;
pub mod startup;
pub mod server;
