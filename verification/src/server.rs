//! The puzzle site's server side: stored records, request validation and the
//! database queries it builds.
pub mod records;
pub mod helper;
pub mod query;
pub mod answers;
