//! Tools for the asset formats of the Diesel engine: the Idstring hash, the
//! hashlist index, the bundle database and package headers, and the model and
//! save-file containers.

pub mod read_helpers;
pub mod diesel_hash;
pub mod text;
pub mod sorting;
pub mod hashindex;
pub mod bundles;
pub mod formats;
pub mod filesystem;
pub mod scriptdata;
pub mod model_ir;
pub mod oil_writer;
pub mod hashlist_scan;
