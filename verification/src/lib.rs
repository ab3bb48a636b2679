//! Verified core of a recipe-management application.
//!
//! The centre is the asset store (`cdn`): it keeps one directory of images
//! per recipe, a metadata index that maps each recipe to the next free image
//! sequence number, and a single binary snapshot of that index on disk.
//! All index bookkeeping, the snapshot format, the error taxonomy and the
//! input validators are verified here; the surrounding process performs the
//! actual filesystem reads and writes and feeds their outcomes back in.

pub mod auth;
pub mod cbor;
pub mod cdn;
pub mod decimal;
pub mod index;
pub mod validating;
