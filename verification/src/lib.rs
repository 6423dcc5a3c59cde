//! Searching the memory of a running process for a byte string.
//!
//! The crate holds the logic of the search: the text format of a memory map
//! entry, the substring search over one region, the extraction of a printable
//! string at a match, and the resumable scan that ties them together. Reading
//! the map and the memory of a process is left to the caller, who drives the
//! scan one request at a time.

pub mod chars;
pub mod extract;
pub mod number;
pub mod perms;
pub mod region;
pub mod scan;
pub mod search;

pub use extract::Completeness;
pub use perms::{ParsePermsError, Perms};
pub use region::{ParseRegionError, Region};
pub use scan::{Event, FindIter, Request, ScanError, ScanItem};
pub use search::Finder;
