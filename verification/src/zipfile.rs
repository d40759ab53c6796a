//! ZIP archives held in memory, read with the `zip` crate.

use std::io::Cursor;
use vstd::prelude::*;
use zip::result::ZipError;
use zip::ZipArchive;

verus! {

#[verifier::external_type_specification]
#[verifier::external_body]
#[verifier::reject_recursive_types(T)]
pub struct ExCursor<T>(Cursor<T>);

#[verifier::external_type_specification]
#[verifier::external_body]
#[verifier::reject_recursive_types(R)]
pub struct ExZipArchive<R>(ZipArchive<R>);

#[verifier::external_type_specification]
#[verifier::external_body]
pub struct ExZipError(ZipError);

/// What the central directory says of one entry.
pub struct ZipEntryInfo {
    pub name: String,
    pub size: u64,
    pub compressed_size: u64,
    pub encrypted: bool,
    pub is_dir: bool,
}

/// One entry of an archive: its name; what opening it by index yields
/// (`None` when the crate refuses to open it, as it does for encrypted
/// entries); and its decompressed contents (`None` when reading them fails).
pub struct ZipEntryModel {
    pub name: Seq<char>,
    pub info: Option<ZipEntryInfo>,
    pub data: Option<Seq<u8>>,
}

/// Why reading an entry by name failed.
pub enum ZipReadFailure {
    /// No entry has that name, or the crate refuses to open it.
    Missing,
    /// Decompressing or checking the entry failed; the reader's message.
    Unreadable(String),
}

/// The entries that `ZipArchive::new` finds in `bytes`, or `None` when the
/// bytes are not an archive it can read.
pub uninterp spec fn zip_parse(bytes: Seq<u8>) -> Option<Seq<ZipEntryModel>>;

/// The entries of an opened archive, in index order.
pub uninterp spec fn zip_entries(archive: ZipArchive<Cursor<Vec<u8>>>) -> Seq<ZipEntryModel>;

/// No two entries share a name (the crate keys its entries by name).
pub open spec fn names_distinct(entries: Seq<ZipEntryModel>) -> bool {
    forall|i: int, j: int|
        0 <= i < entries.len() && 0 <= j < entries.len() && i != j ==> entries[i].name
            != entries[j].name
}

/// The entry named `name`, if any.
pub open spec fn entry_named(entries: Seq<ZipEntryModel>, name: Seq<char>) -> Option<ZipEntryModel>
    decreases entries.len(),
{
    if entries.len() == 0 {
        None
    } else if entries[0].name == name {
        Some(entries[0])
    } else {
        entry_named(entries.drop_first(), name)
    }
}

/// Opens the archive in `bytes` with `ZipArchive::new` over a `Cursor`.
/// Claims: it succeeds exactly when `zip_parse` finds entries, those are
/// the archive's entries, their names are distinct, and the name that an
/// opened entry reports is the entry's name.
#[verifier::external_body]
pub(crate) fn zip_open(bytes: Vec<u8>) -> (r: Result<ZipArchive<Cursor<Vec<u8>>>, ZipError>)
    ensures
        r is Ok <==> zip_parse(bytes@) is Some,
        r matches Ok(a) ==> zip_parse(bytes@) == Some(zip_entries(a)),
        r matches Ok(a) ==> names_distinct(zip_entries(a)),
        r matches Ok(a) ==> forall|i: int|
            0 <= i < zip_entries(a).len() && (#[trigger] zip_entries(a)[i]).info is Some
                ==> zip_entries(a)[i].info->0.name@ == zip_entries(a)[i].name,
{
    ZipArchive::new(Cursor::new(bytes))
}

/// `ZipArchive::len`: the number of entries.
#[verifier::external_body]
pub(crate) fn zip_len(archive: &ZipArchive<Cursor<Vec<u8>>>) -> (n: usize)
    ensures
        n == zip_entries(*archive).len(),
{
    archive.len()
}

/// `ZipArchive::by_index`, keeping what the central directory says of the
/// entry. Claims: it succeeds exactly when the model says the entry opens,
/// with that information, and the archive's entries do not change.
#[verifier::external_body]
pub(crate) fn zip_entry_at(archive: &mut ZipArchive<Cursor<Vec<u8>>>, index: usize) -> (r: Result<
    ZipEntryInfo,
    ZipError,
>)
    requires
        index < zip_entries(*old(archive)).len(),
    ensures
        zip_entries(*final(archive)) == zip_entries(*old(archive)),
        r is Ok <==> zip_entries(*old(archive))[index as int].info is Some,
        r matches Ok(e) ==> zip_entries(*old(archive))[index as int].info == Some(e),
{
    match archive.by_index(index) {
        Ok(f) => Ok(ZipEntryInfo {
            name: f.name().to_string(),
            size: f.size(),
            compressed_size: f.compressed_size(),
            encrypted: f.encrypted(),
            is_dir: f.is_dir(),
        }),
        Err(e) => Err(e),
    }
}

/// `ZipArchive::by_name`, keeping what the central directory says of the
/// entry. Claims: it succeeds exactly when an entry has that name and opens.
#[verifier::external_body]
pub(crate) fn zip_entry_named(archive: &mut ZipArchive<Cursor<Vec<u8>>>, name: &str) -> (r: Result<
    ZipEntryInfo,
    ZipError,
>)
    ensures
        zip_entries(*final(archive)) == zip_entries(*old(archive)),
        r is Ok <==> (entry_named(zip_entries(*old(archive)), name@) matches Some(e)
            && e.info is Some),
        r matches Ok(e) ==> entry_named(zip_entries(*old(archive)), name@)->0.info == Some(e),
{
    match archive.by_name(name) {
        Ok(f) => Ok(ZipEntryInfo {
            name: f.name().to_string(),
            size: f.size(),
            compressed_size: f.compressed_size(),
            encrypted: f.encrypted(),
            is_dir: f.is_dir(),
        }),
        Err(e) => Err(e),
    }
}

/// `ZipArchive::by_name` followed by `Read::read_to_end` on the entry.
/// Claims: a missing or unopenable entry gives `Missing`; otherwise the
/// result is the entry's contents, or `Unreadable` when the model says that
/// reading fails.
#[verifier::external_body]
pub(crate) fn zip_read_named(archive: &mut ZipArchive<Cursor<Vec<u8>>>, name: &str) -> (r: Result<
    Vec<u8>,
    ZipReadFailure,
>)
    ensures
        zip_entries(*final(archive)) == zip_entries(*old(archive)),
        match entry_named(zip_entries(*old(archive)), name@) {
            Some(e) if e.info is Some => match e.data {
                Some(d) => r matches Ok(v) && v@ == d,
                None => r matches Err(ZipReadFailure::Unreadable(_)),
            },
            _ => r matches Err(ZipReadFailure::Missing),
        },
{
    let mut entry = match archive.by_name(name) {
        Ok(entry) => entry,
        Err(_) => return Err(ZipReadFailure::Missing),
    };
    let mut bytes = Vec::new();
    match std::io::Read::read_to_end(&mut entry, &mut bytes) {
        Ok(_) => Ok(bytes),
        Err(error) => Err(ZipReadFailure::Unreadable(error.to_string())),
    }
}

} // verus!
