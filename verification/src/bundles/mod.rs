//! The asset database: `bundle_db.blb`, the package headers, and the
//! database built from them.
use vstd::prelude::*;

pub mod bundledb_reader;
pub mod packageheader_reader;
pub mod database;
pub mod loader;


verus! {

/// The I/O error type of the standard library, carried through unread.
#[verifier::external_type_specification]
#[verifier::external_body]
pub struct ExIoError(std::io::Error);

/// A path of the standard library, carried through unread.
#[verifier::external_type_specification]
#[verifier::external_body]
pub struct ExPathBuf(std::path::PathBuf);

/// A point in time of the standard library, carried through unread.
#[verifier::external_type_specification]
#[verifier::external_body]
pub struct ExSystemTime(std::time::SystemTime);

/// `SystemTime::clone` gives a time equal to the one cloned (the type is
/// `Copy`).
pub assume_specification[ <std::time::SystemTime as Clone>::clone ](t: &std::time::SystemTime) -> (r:
    std::time::SystemTime)
    ensures
        r == *t,
;

/// `SystemTime::UNIX_EPOCH`, the time given where no time is known. Nothing
/// is stated of the value: it is carried through.
#[verifier::external_body]
pub(crate) fn unix_epoch() -> std::time::SystemTime {
    std::time::SystemTime::UNIX_EPOCH
}

/// Why reading the asset database failed.
#[derive(Debug)]
pub enum ReadError {
    UnknownFormatOrMalformed,
    IoError(std::io::Error),
    ParseFailed(String),
    BadMultiBundleHeader,
}

} // verus!
