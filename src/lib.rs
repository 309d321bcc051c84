//! Finds files with identical content beneath a directory tree by grouping
//! them under the MD5 digest of their bytes.
pub mod digest;
pub mod index;
pub mod report;
pub mod scan;
