//! A directory-listing library: it turns the metadata of a directory's
//! entries into sorted, numbered table rows with human-readable sizes and
//! permission strings.
pub mod text;
pub mod format;
pub mod entry;
pub mod order;
pub mod listing;
pub mod resolve;
