use vstd::prelude::*;
use vstd::seq_lib::to_multiset_contains;
use vstd::utf8::valid_utf8;

use crate::error::IndexError;
use crate::extract::{csv_records, extracted, lemma_extracted, record_key, RecordView};
use crate::format::{
    index_bytes, index_offset, lemma_entry_located, lemma_index_prefix, lemma_index_step,
    lemma_top_entry_located, lemma_top_index_len, lemma_word_bytes, top_entry_at, top_entry_of,
    top_index_bytes,
};
use crate::key::{key_le, key_lt, key_order, lemma_key_lt_total, lemma_key_lt_transitive};
use crate::key::{KeyOffsetView, KeyOrder};
use crate::search::{entry_at, locate, matching_row, row_at, search_result, ROW_TERMINATOR};
use crate::sort::{entry_le, in_order, lemma_sorted_entries};
use crate::write::{files_of, generated_files, index_entries, IndexFilesView};

verus! {

/// Entries that the two files can hold: every key is UTF-8, and `Index` is
/// no longer than a 64-bit offset can address.
pub open spec fn storable(entries: Seq<KeyOffsetView>) -> bool {
    &&& index_bytes(entries).len() <= u64::MAX
    &&& forall|i: int| 0 <= i < entries.len() ==> valid_utf8((#[trigger] entries[i]).key)
}

/// Reading entry `n` back from the files written for `entries` gives
/// `entries[n]`.
pub proof fn lemma_entry_read_back(entries: Seq<KeyOffsetView>, n: int)
    requires
        storable(entries),
        0 <= n < entries.len(),
    ensures
        entry_at(top_index_bytes(entries), index_bytes(entries), n) == Ok::<
            KeyOffsetView,
            IndexError,
        >(entries[n]),
{
    let top = top_index_bytes(entries);
    let index = index_bytes(entries);
    lemma_top_index_len(entries);
    lemma_top_entry_located(entries, n);
    lemma_entry_located(entries, n);
    lemma_index_prefix(entries, n);
    lemma_word_bytes(entries[n].offset);
    let record = top_entry_at(top, n);
    assert(record == top_entry_of(entries, n));
    assert(record.key_length == entries[n].key.len());
    assert(record.index_offset == index_offset(entries, n));
    let start = record.index_offset as int;
    let mid = start + record.key_length;
    assert(index.subrange(start, mid) == entries[n].key);
    assert(valid_utf8(entries[n].key));
}

/// Directory record `i` gives the length of key `i` and the place where
/// entry `i` starts in `Index`. The key found at that place has that length,
/// and the next entry starts right behind the 8 bytes that follow the key.
pub proof fn lemma_offsets_correct(entries: Seq<KeyOffsetView>, i: int)
    requires
        storable(entries),
        0 <= i < entries.len(),
    ensures
        top_entry_at(top_index_bytes(entries), i).key_length == entries[i].key.len(),
        top_entry_at(top_index_bytes(entries), i).index_offset == index_offset(entries, i),
        entry_at(top_index_bytes(entries), index_bytes(entries), i) matches Ok(entry)
            && entry.key.len() == top_entry_at(top_index_bytes(entries), i).key_length,
        index_offset(entries, 0) == 0,
        index_offset(entries, i + 1) == index_offset(entries, i) + entries[i].key.len() + 8,
        index_offset(entries, entries.len() as int) == index_bytes(entries).len(),
{
    lemma_entry_read_back(entries, i);
    lemma_top_entry_located(entries, i);
    lemma_entry_located(entries, i);
    lemma_index_prefix(entries, i);
    lemma_index_step(entries, i);
    assert(entries.take(entries.len() as int) =~= entries);
}

/// On the files written for entries in ascending order, the bisection of
/// `low .. high` never fails; it answers with an entry of that range that
/// holds the key, and with `None` only where no entry of the range holds it.
pub proof fn lemma_locate_built(entries: Seq<KeyOffsetView>, key: Seq<u8>, low: int, high: int)
    requires
        storable(entries),
        in_order(entries),
        0 <= low <= high <= entries.len(),
    ensures
        match locate(top_index_bytes(entries), index_bytes(entries), key, low, high) {
            Ok(Some(entry)) => entry.key == key && exists|i: int|
                low <= i < high && #[trigger] entries[i] == entry,
            Ok(None) => forall|i: int| low <= i < high ==> (#[trigger] entries[i]).key != key,
            Err(_) => false,
        },
    decreases high - low,
{
    if low < high {
        let mid = low + (high - low) / 2;
        let middle = entries[mid];
        lemma_entry_read_back(entries, mid);
        lemma_key_lt_total(middle.key, key);
        match key_order(middle.key, key) {
            KeyOrder::Equal => {},
            KeyOrder::Less => {
                lemma_locate_built(entries, key, mid + 1, high);
                assert forall|i: int| low <= i <= mid implies (#[trigger] entries[i]).key
                    != key by {
                    if i < mid {
                        assert(entry_le(entries[i], entries[mid]));
                        if key_lt(entries[i].key, middle.key) {
                            lemma_key_lt_transitive(entries[i].key, middle.key, key);
                        }
                    }
                    lemma_key_lt_total(entries[i].key, key);
                }
            },
            KeyOrder::Greater => {
                lemma_locate_built(entries, key, low, mid);
                assert forall|i: int| mid <= i < high implies (#[trigger] entries[i]).key
                    != key by {
                    if mid < i {
                        assert(entry_le(entries[mid], entries[i]));
                        if key_lt(middle.key, entries[i].key) {
                            lemma_key_lt_transitive(key, middle.key, entries[i].key);
                        }
                    }
                    lemma_key_lt_total(key, entries[i].key);
                }
            },
        }
    }
}

/// A lookup on the files written for entries in ascending order never
/// fails. It finds an entry that holds the key where there is one, and
/// answers `None` exactly where there is none.
pub proof fn lemma_search_built(entries: Seq<KeyOffsetView>, key: Seq<u8>)
    requires
        storable(entries),
        in_order(entries),
    ensures
        match search_result(top_index_bytes(entries), index_bytes(entries), key) {
            Ok(Some(entry)) => entry.key == key && entries.contains(entry),
            Ok(None) => forall|i: int| 0 <= i < entries.len() ==> (#[trigger] entries[i]).key != key,
            Err(_) => false,
        },
{
    lemma_top_index_len(entries);
    lemma_locate_built(entries, key, 0, entries.len() as int);
}

/// The entries of a built index are in ascending order, one for each
/// record: every record's key and offset are among them, and each of them
/// is the key and offset of some record.
pub proof fn lemma_index_entries(
    records: Seq<RecordView>,
    key_index: int,
    entries: Seq<KeyOffsetView>,
)
    requires
        index_entries(records, key_index) == Ok::<Seq<KeyOffsetView>, IndexError>(entries),
    ensures
        in_order(entries),
        entries.len() == records.len(),
        forall|i: int|
            0 <= i < records.len() ==> (#[trigger] record_key(records[i], key_index)) is Ok
                && entries.contains(record_key(records[i], key_index)->Ok_0),
        forall|n: int|
            0 <= n < entries.len() ==> exists|i: int|
                0 <= i < records.len() && #[trigger] record_key(records[i], key_index) == Ok::<
                    KeyOffsetView,
                    IndexError,
                >(#[trigger] entries[n]),
        forall|n: int| 0 <= n < entries.len() ==> valid_utf8((#[trigger] entries[n]).key),
{
    let source = extracted(records, key_index)->Ok_0;
    lemma_extracted(records, key_index);
    lemma_sorted_entries(source);
    assert forall|i: int| 0 <= i < records.len() implies (#[trigger] record_key(
        records[i],
        key_index,
    )) is Ok && entries.contains(record_key(records[i], key_index)->Ok_0) by {
        let entry = source[i];
        assert(source.contains(entry));
        to_multiset_contains(source, entry);
        to_multiset_contains(entries, entry);
    }
    assert forall|n: int| 0 <= n < entries.len() implies exists|i: int|
        0 <= i < records.len() && #[trigger] record_key(records[i], key_index) == Ok::<
            KeyOffsetView,
            IndexError,
        >(#[trigger] entries[n]) by {
        let entry = entries[n];
        assert(entries.contains(entry));
        to_multiset_contains(source, entry);
        to_multiset_contains(entries, entry);
        let i = choose|i: int| 0 <= i < source.len() && source[i] == entry;
        assert(record_key(records[i], key_index) == Ok::<KeyOffsetView, IndexError>(source[i]));
    }
    assert forall|n: int| 0 <= n < entries.len() implies valid_utf8(
        (#[trigger] entries[n]).key,
    ) by {
        let i = choose|i: int|
            0 <= i < records.len() && #[trigger] record_key(records[i], key_index) == Ok::<
                KeyOffsetView,
                IndexError,
            >(entries[n]);
    }
}

/// What a successful build over a source file is made of: the records that
/// the parser yields, the entries taken from them, and the files that hold
/// the entries, short enough for 64-bit offsets.
pub open spec fn built(
    data: Seq<u8>,
    key_index: int,
    delimiter: u8,
    records: Seq<RecordView>,
    entries: Seq<KeyOffsetView>,
    files: IndexFilesView,
) -> bool {
    &&& csv_records(data, delimiter, ROW_TERMINATOR) == Some(records)
    &&& index_entries(records, key_index) == Ok::<Seq<KeyOffsetView>, IndexError>(entries)
    &&& generated_files(data, key_index, delimiter) == Ok::<IndexFilesView, IndexError>(files)
    &&& files.index.len() <= u64::MAX
}

/// The files of a successful build are those written for its entries, and
/// the entries are storable and in ascending order.
pub proof fn lemma_built(
    data: Seq<u8>,
    key_index: int,
    delimiter: u8,
    records: Seq<RecordView>,
    entries: Seq<KeyOffsetView>,
    files: IndexFilesView,
)
    requires
        built(data, key_index, delimiter, records, entries, files),
    ensures
        files == files_of(entries),
        storable(entries),
        in_order(entries),
        entries.len() == records.len(),
{
    lemma_index_entries(records, key_index, entries);
}

/// Round trip. After a build, looking up the key of any record finds an
/// entry with that key that belongs to a record of the source; where no
/// other record shares the key, it is the entry of that very record, and the
/// row fetched for the key is whatever reading the source at the record's
/// offset gives.
pub proof fn lemma_round_trip(
    data: Seq<u8>,
    key_index: int,
    delimiter: u8,
    records: Seq<RecordView>,
    entries: Seq<KeyOffsetView>,
    files: IndexFilesView,
    i: int,
)
    requires
        built(data, key_index, delimiter, records, entries, files),
        0 <= i < records.len(),
    ensures
        record_key(records[i], key_index) matches Ok(own) && search_result(
            files.top_index,
            files.index,
            own.key,
        ) matches Ok(Some(found)) && {
            &&& found.key == own.key
            &&& exists|j: int|
                0 <= j < records.len() && #[trigger] record_key(records[j], key_index) == Ok::<
                    KeyOffsetView,
                    IndexError,
                >(found)
            &&& (forall|j: int|
                0 <= j < records.len() && j != i ==> (#[trigger] records[j]).fields[key_index]
                    != records[i].fields[key_index]) ==> {
                &&& found == own
                &&& matching_row(data, files.top_index, files.index, own.key) == (match row_at(
                    data,
                    own.offset as int,
                ) {
                    Ok(row) => Ok::<Option<Seq<u8>>, IndexError>(Some(row)),
                    Err(e) => Err(e),
                })
            }
        },
{
    lemma_built(data, key_index, delimiter, records, entries, files);
    lemma_index_entries(records, key_index, entries);
    let own = record_key(records[i], key_index)->Ok_0;
    lemma_search_built(entries, own.key);
    assert(entries.contains(own));
    let found = search_result(files.top_index, files.index, own.key)->Ok_0->0;
    let n = choose|n: int| 0 <= n < entries.len() && entries[n] == found;
    let j = choose|j: int|
        0 <= j < records.len() && #[trigger] record_key(records[j], key_index) == Ok::<
            KeyOffsetView,
            IndexError,
        >(entries[n]);
    if forall|j: int|
        0 <= j < records.len() && j != i ==> (#[trigger] records[j]).fields[key_index]
            != records[i].fields[key_index] {
        assert(records[j].fields[key_index] == found.key);
        assert(j == i);
    }
}

/// Not found. After a build, a key that no record holds is answered with
/// `None`, by the lookup and by the fetch of the row alike.
pub proof fn lemma_absent_key(
    data: Seq<u8>,
    key_index: int,
    delimiter: u8,
    records: Seq<RecordView>,
    entries: Seq<KeyOffsetView>,
    files: IndexFilesView,
    key: Seq<u8>,
)
    requires
        built(data, key_index, delimiter, records, entries, files),
        forall|j: int|
            0 <= j < records.len() ==> (#[trigger] records[j]).fields[key_index] != key,
    ensures
        search_result(files.top_index, files.index, key) == Ok::<
            Option<KeyOffsetView>,
            IndexError,
        >(None),
        matching_row(data, files.top_index, files.index, key) == Ok::<
            Option<Seq<u8>>,
            IndexError,
        >(None),
{
    lemma_built(data, key_index, delimiter, records, entries, files);
    lemma_index_entries(records, key_index, entries);
    lemma_search_built(entries, key);
    let outcome = search_result(files.top_index, files.index, key);
    if outcome is Ok && outcome->Ok_0 is Some {
        let found = outcome->Ok_0->0;
        let n = choose|n: int| 0 <= n < entries.len() && entries[n] == found;
        let j = choose|j: int|
            0 <= j < records.len() && #[trigger] record_key(records[j], key_index) == Ok::<
                KeyOffsetView,
                IndexError,
            >(entries[n]);
        assert(records[j].fields[key_index] == key);
    }
}

/// Order. The keys read back from a built index ascend: an earlier entry
/// never holds a key that comes after the key of a later one.
pub proof fn lemma_keys_ascend(
    data: Seq<u8>,
    key_index: int,
    delimiter: u8,
    records: Seq<RecordView>,
    entries: Seq<KeyOffsetView>,
    files: IndexFilesView,
    i: int,
    j: int,
)
    requires
        built(data, key_index, delimiter, records, entries, files),
        0 <= i < j < files.top_index.len() / 16,
    ensures
        entry_at(files.top_index, files.index, i) matches Ok(first) && entry_at(
            files.top_index,
            files.index,
            j,
        ) matches Ok(second) && key_le(first.key, second.key),
{
    lemma_built(data, key_index, delimiter, records, entries, files);
    lemma_top_index_len(entries);
    lemma_entry_read_back(entries, i);
    lemma_entry_read_back(entries, j);
    assert(entry_le(entries[i], entries[j]));
}

/// Count. A built index holds one directory record and one entry for each
/// parsed record: the directory is 16 bytes per record, every one of its
/// records leads to an entry that reads back, and the entries fill `Index`
/// to its last byte.
pub proof fn lemma_counts(
    data: Seq<u8>,
    key_index: int,
    delimiter: u8,
    records: Seq<RecordView>,
    entries: Seq<KeyOffsetView>,
    files: IndexFilesView,
)
    requires
        built(data, key_index, delimiter, records, entries, files),
    ensures
        files.top_index.len() == 16 * records.len(),
        entries.len() == records.len(),
        forall|n: int|
            0 <= n < records.len() ==> (#[trigger] entry_at(files.top_index, files.index, n))
                == Ok::<KeyOffsetView, IndexError>(entries[n]),
        index_offset(entries, records.len() as int) == files.index.len(),
{
    lemma_built(data, key_index, delimiter, records, entries, files);
    lemma_top_index_len(entries);
    assert forall|n: int| 0 <= n < records.len() implies (#[trigger] entry_at(
        files.top_index,
        files.index,
        n,
    )) == Ok::<KeyOffsetView, IndexError>(entries[n]) by {
        lemma_entry_read_back(entries, n);
    }
    assert(entries.take(entries.len() as int) =~= entries);
}

/// Rebuilding. Two builds over the same source with different key columns
/// do not depend on each other: each index holds, for every record, an
/// entry with that record's offset under the key of its own column.
pub proof fn lemma_rebuild(
    data: Seq<u8>,
    delimiter: u8,
    records: Seq<RecordView>,
    first_column: int,
    first_entries: Seq<KeyOffsetView>,
    first_files: IndexFilesView,
    second_column: int,
    second_entries: Seq<KeyOffsetView>,
    second_files: IndexFilesView,
    i: int,
)
    requires
        built(data, first_column, delimiter, records, first_entries, first_files),
        built(data, second_column, delimiter, records, second_entries, second_files),
        0 <= i < records.len(),
    ensures
        first_files.top_index.len() == second_files.top_index.len(),
        exists|n: int|
            0 <= n < records.len() && #[trigger] entry_at(
                first_files.top_index,
                first_files.index,
                n,
            ) == record_key(records[i], first_column),
        exists|n: int|
            0 <= n < records.len() && #[trigger] entry_at(
                second_files.top_index,
                second_files.index,
                n,
            ) == record_key(records[i], second_column),
{
    lemma_counts(data, first_column, delimiter, records, first_entries, first_files);
    lemma_counts(data, second_column, delimiter, records, second_entries, second_files);
    lemma_index_entries(records, first_column, first_entries);
    lemma_index_entries(records, second_column, second_entries);
    let first = record_key(records[i], first_column)->Ok_0;
    let second = record_key(records[i], second_column)->Ok_0;
    assert(first_entries.contains(first));
    assert(second_entries.contains(second));
    let n = choose|n: int| 0 <= n < first_entries.len() && first_entries[n] == first;
    let m = choose|m: int| 0 <= m < second_entries.len() && second_entries[m] == second;
    assert(entry_at(first_files.top_index, first_files.index, n) == record_key(
        records[i],
        first_column,
    ));
    assert(entry_at(second_files.top_index, second_files.index, m) == record_key(
        records[i],
        second_column,
    ));
}

} // verus!
