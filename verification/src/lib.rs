//! Static secondary index over a delimited flat file.
//!
//! A build turns the source bytes into two byte streams: `Index`, the keys in
//! ascending byte order each followed by the offset of its row, and
//! `TopLevelIndex`, one fixed 16-byte directory record per key. A lookup
//! bisects the directory and follows it into `Index`; the row is then read
//! from the source at the offset found.
//!
//! Files are modelled as byte sequences. Opening, seeking and writing them is
//! left to the caller.

pub mod error;
pub mod extract;
pub mod format;
pub mod key;
pub mod laws;
pub mod search;
pub mod sort;
pub mod text;
pub mod write;

pub use error::IndexError;
pub use extract::{extract_keys, key_of_record, Record};
pub use format::{decode_entry, encode_entry, TopLevelEntry, TOP_ENTRY_SIZE, WORD_SIZE};
pub use key::{compare_keys, KeyOffset, KeyOrder};
pub use search::{
    find_key, get_matching_row, get_nth_element, read_row, search, search_counted, Locator,
    ROW_TERMINATOR,
};
pub use sort::{entry_before, sort_entries};
pub use text::{append_bytes, decode_text};
pub use write::{build_index, generate_index, write_index, IndexFiles};
