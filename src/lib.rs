//! Parsing of a process's memory-mapping listing: one record per line, each giving an address
//! range, permission letters, a file offset, a device pair, an inode and an optional path.
use vstd::prelude::*;

pub mod digits;
pub mod entry;
pub mod fields;
pub mod laws;
pub mod record;

pub use entry::{Entries, Entry, Error, Permissions};
pub use fields::{parse_addresses, parse_device, parse_inode, parse_offset, parse_params};
pub use record::{parse_fields, parse_line, parse_lines};

verus! {

} // verus!
