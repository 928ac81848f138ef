use vstd::prelude::*;

pub use crate::key::KeyOffset;

use crate::error::IndexError;
use crate::extract::{
    csv_records, extract_keys, extracted, parse_records, record_views, Record, RecordView,
};
use crate::format::{
    encode_entry, index_bytes, lemma_index_step, top_entry_of, top_index_bytes, views,
    TopLevelEntry,
};
use crate::key::KeyOffsetView;
use crate::search::ROW_TERMINATOR;
use crate::sort::{sort_entries, sorted_entries};

verus! {

/// The two files of an index, as bytes.
#[derive(Debug)]
pub struct IndexFiles {
    /// `Index`: for each entry the key bytes and the row's offset.
    pub index: Vec<u8>,
    /// `TopLevelIndex`: for each entry a 16-byte directory record.
    pub top_index: Vec<u8>,
}

/// What an `IndexFiles` stands for: the contents of the two files.
pub ghost struct IndexFilesView {
    pub index: Seq<u8>,
    pub top_index: Seq<u8>,
}

impl View for IndexFiles {
    type V = IndexFilesView;

    open spec fn view(&self) -> IndexFilesView {
        IndexFilesView { index: self.index@, top_index: self.top_index@ }
    }
}

/// What the result of a build stands for.
pub open spec fn files_view(r: Result<IndexFiles, IndexError>) -> Result<
    IndexFilesView,
    IndexError,
> {
    match r {
        Ok(files) => Ok(files@),
        Err(e) => Err(e),
    }
}

/// The two files for the given entries, in the order given.
pub open spec fn files_of(entries: Seq<KeyOffsetView>) -> IndexFilesView {
    IndexFilesView { index: index_bytes(entries), top_index: top_index_bytes(entries) }
}

/// The entries of the index over `records` keyed by column `key_index`: the
/// key and offset of every record, in ascending order; or the error of the
/// first record that yields no key.
pub open spec fn index_entries(records: Seq<RecordView>, key_index: int) -> Result<
    Seq<KeyOffsetView>,
    IndexError,
> {
    match extracted(records, key_index) {
        Ok(entries) => Ok(sorted_entries(entries)),
        Err(e) => Err(e),
    }
}

/// The outcome of a build over parsed records.
pub open spec fn built_files(records: Seq<RecordView>, key_index: int) -> Result<
    IndexFilesView,
    IndexError,
> {
    match index_entries(records, key_index) {
        Ok(entries) => Ok(files_of(entries)),
        Err(e) => Err(e),
    }
}

/// The outcome of a build over the bytes of a source file: `Format` where
/// the parser rejects the data, else the build over the records it yields.
pub open spec fn generated_files(data: Seq<u8>, key_index: int, delimiter: u8) -> Result<
    IndexFilesView,
    IndexError,
> {
    match csv_records(data, delimiter, ROW_TERMINATOR) {
        Some(records) => built_files(records, key_index),
        None => Err(IndexError::Format),
    }
}

/// Lays the entries out as `Index` and `TopLevelIndex`, in the order given,
/// keeping the running length of `Index` as the offset of the next entry.
pub fn write_index(entries: &Vec<KeyOffset>) -> (files: IndexFiles)
    ensures
        files.index@ == index_bytes(views(entries@)),
        files.top_index@ == top_index_bytes(views(entries@)),
{
    let mut index: Vec<u8> = Vec::new();
    let mut top_index: Vec<u8> = Vec::new();
    let ghost all = views(entries@);
    let mut i: usize = 0;
    proof {
        assert(all.take(0).len() == 0);
    }
    while i < entries.len()
        invariant
            i <= entries.len(),
            all == views(entries@),
            index@ == index_bytes(all.take(i as int)),
            top_index@ == top_index_bytes(all.take(i as int)),
        decreases entries.len() - i,
    {
        let entry = &entries[i];
        let record = TopLevelEntry {
            key_length: entry.key.as_str().as_bytes().len() as u64,
            index_offset: index.len() as u64,
        };
        proof {
            let upto = all.take(i + 1);
            lemma_index_step(all, i as int);
            assert(upto.drop_last() =~= all.take(i as int));
            assert(upto.take(i as int) =~= all.take(i as int));
            assert(upto[i as int] == entry@);
            assert(top_entry_of(upto, i as int) == record);
        }
        record.encode(&mut top_index);
        encode_entry(entry, &mut index);
        i += 1;
    }
    proof {
        assert(all.take(i as int) =~= all);
    }
    IndexFiles { index, top_index }
}

/// Builds the index over `records`, keyed by column `key_index`: extracts
/// the keys, sorts them and lays them out.
pub fn build_index(records: &Vec<Record>, key_index: usize) -> (r: Result<IndexFiles, IndexError>)
    ensures
        files_view(r) == built_files(record_views(records@), key_index as int),
{
    match extract_keys(records, key_index) {
        Ok(entries) => Ok(write_index(&sort_entries(&entries))),
        Err(e) => Err(e),
    }
}

/// Builds the index over the source file `data`, whose fields are separated
/// by `delimiter`, keyed by column `key_index` (counted from 0).
pub fn generate_index(data: &[u8], key_index: usize, delimiter: u8) -> (r: Result<
    IndexFiles,
    IndexError,
>)
    ensures
        files_view(r) == generated_files(data@, key_index as int, delimiter),
{
    match parse_records(data, delimiter, ROW_TERMINATOR) {
        Ok(records) => build_index(&records, key_index),
        Err(_) => Err(IndexError::Format),
    }
}

} // verus!
