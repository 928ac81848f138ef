use vstd::prelude::*;
use vstd::utf8::valid_utf8;

use crate::error::IndexError;
use crate::key::{KeyOffset, KeyOffsetView};
use crate::text::decode_text;

verus! {

/// One parsed record of the source: its fields, and the byte offset at
/// which it starts where the parser reported one.
#[derive(Debug)]
pub struct Record {
    pub fields: Vec<Vec<u8>>,
    pub offset: Option<u64>,
}

/// What a `Record` stands for.
pub ghost struct RecordView {
    pub fields: Seq<Seq<u8>>,
    pub offset: Option<u64>,
}

impl View for Record {
    type V = RecordView;

    open spec fn view(&self) -> RecordView {
        RecordView { fields: self.fields@.map_values(|field: Vec<u8>| field@), offset: self.offset }
    }
}

/// The views of a run of records.
pub open spec fn record_views(records: Seq<Record>) -> Seq<RecordView> {
    records.map_values(|record: Record| record@)
}

/// The error of the `csv` crate, carried through without a look inside.
#[verifier::external_type_specification]
#[verifier::external_body]
pub struct ExCsvError(csv::Error);

/// The records that the `csv` reader yields for `data` with the given field
/// delimiter and record terminator, in file order, or `None` where it stops
/// with an error. The reader takes no record as a header: the first record
/// of the data is yielded like every other. It is otherwise left as
/// `csv::ReaderBuilder::new` makes it, and so rejects a record whose number
/// of fields differs from that of the first record.
pub uninterp spec fn csv_records(data: Seq<u8>, delimiter: u8, terminator: u8) -> Option<
    Seq<RecordView>,
>;

/// Runs `csv::Reader::byte_records` over `data`, with the reader told that
/// the data has no header. The result is a function of the three arguments
/// alone, named `csv_records`: each record comes with its fields as the
/// reader split them and with the byte position that the reader attached to
/// it.
#[verifier::external_body]
pub(crate) fn parse_records(data: &[u8], delimiter: u8, terminator: u8) -> (r: Result<
    Vec<Record>,
    csv::Error,
>)
    ensures
        r is Ok <==> csv_records(data@, delimiter, terminator) is Some,
        r matches Ok(records) ==> csv_records(data@, delimiter, terminator) == Some(
            record_views(records@),
        ),
{
    let mut reader = csv::ReaderBuilder::new()
        .has_headers(false)
        .delimiter(delimiter)
        .terminator(csv::Terminator::Any(terminator))
        .from_reader(data);
    let mut records = Vec::new();
    for row in reader.byte_records() {
        let row = row?;
        records.push(Record {
            fields: row.iter().map(|field| field.to_vec()).collect(),
            offset: row.position().map(|position| position.byte()),
        });
    }
    Ok(records)
}

/// The key and offset that a record contributes when column `key_index`
/// holds the key. A record without that column is a `Parse` error; one
/// without an offset, or whose key is not UTF-8, a `Format` error.
pub open spec fn record_key(record: RecordView, key_index: int) -> Result<KeyOffsetView, IndexError> {
    if key_index >= record.fields.len() {
        Err(IndexError::Parse)
    } else if record.offset is None || !valid_utf8(record.fields[key_index]) {
        Err(IndexError::Format)
    } else {
        Ok(KeyOffsetView { key: record.fields[key_index], offset: record.offset->0 })
    }
}

/// The keys and offsets of all records, in file order, or the error of the
/// first record that has one.
pub open spec fn extracted(records: Seq<RecordView>, key_index: int) -> Result<
    Seq<KeyOffsetView>,
    IndexError,
>
    decreases records.len(),
{
    if records.len() == 0 {
        Ok(Seq::empty())
    } else {
        match extracted(records.drop_last(), key_index) {
            Err(e) => Err(e),
            Ok(front) => match record_key(records.last(), key_index) {
                Err(e) => Err(e),
                Ok(entry) => Ok(front.push(entry)),
            },
        }
    }
}

/// What the result of an extraction stands for.
pub open spec fn entries_view(r: Result<Vec<KeyOffset>, IndexError>) -> Result<
    Seq<KeyOffsetView>,
    IndexError,
> {
    match r {
        Ok(entries) => Ok(entries@.map_values(|entry: KeyOffset| entry@)),
        Err(e) => Err(e),
    }
}

/// Extraction succeeds exactly when every record yields a key, and then
/// gives one entry per record, in the order of the records.
pub proof fn lemma_extracted(records: Seq<RecordView>, key_index: int)
    ensures
        extracted(records, key_index) is Ok <==> forall|i: int|
            0 <= i < records.len() ==> (#[trigger] record_key(records[i], key_index)) is Ok,
        extracted(records, key_index) matches Ok(entries) ==> {
            &&& entries.len() == records.len()
            &&& forall|i: int|
                0 <= i < records.len() ==> record_key(records[i], key_index) == Ok::<
                    KeyOffsetView,
                    IndexError,
                >(#[trigger] entries[i])
        },
    decreases records.len(),
{
    if records.len() > 0 {
        let front = records.drop_last();
        lemma_extracted(front, key_index);
        if extracted(front, key_index) is Ok {
            if record_key(records.last(), key_index) is Ok {
                assert forall|i: int| 0 <= i < records.len() implies (#[trigger] record_key(
                    records[i],
                    key_index,
                )) is Ok by {
                    if i < front.len() {
                        assert(records[i] == front[i]);
                    }
                }
                let entries = extracted(records, key_index)->Ok_0;
                assert forall|i: int| 0 <= i < records.len() implies record_key(
                    records[i],
                    key_index,
                ) == Ok::<KeyOffsetView, IndexError>(#[trigger] entries[i]) by {
                    if i < front.len() {
                        assert(records[i] == front[i]);
                    }
                }
            } else {
                assert(records[records.len() - 1] == records.last());
            }
        } else {
            let i = choose|i: int|
                0 <= i < front.len() && !((#[trigger] record_key(front[i], key_index)) is Ok);
            assert(records[i] == front[i]);
        }
    }
}

/// The key and offset of one record.
pub fn key_of_record(record: &Record, key_index: usize) -> (r: Result<KeyOffset, IndexError>)
    ensures
        crate::key::entry_view(r) == record_key(record@, key_index as int),
{
    if key_index >= record.fields.len() {
        return Err(IndexError::Parse);
    }
    let offset = match record.offset {
        Some(offset) => offset,
        None => {
            return Err(IndexError::Format);
        },
    };
    match decode_text(record.fields[key_index].as_slice()) {
        Ok(key) => Ok(KeyOffset { key, offset }),
        Err(e) => Err(e),
    }
}

/// Takes the key in column `key_index` of every record, with the offset of
/// the record.
pub fn extract_keys(records: &Vec<Record>, key_index: usize) -> (r: Result<Vec<KeyOffset>, IndexError>)
    ensures
        entries_view(r) == extracted(record_views(records@), key_index as int),
{
    let mut entries: Vec<KeyOffset> = Vec::new();
    let ghost all = record_views(records@);
    let mut i: usize = 0;
    proof {
        assert(all.take(0) =~= Seq::empty());
        assert(entries@.map_values(|entry: KeyOffset| entry@) =~= Seq::empty());
    }
    while i < records.len()
        invariant
            i <= records.len(),
            all == record_views(records@),
            extracted(all.take(i as int), key_index as int) == Ok::<Seq<KeyOffsetView>, IndexError>(
                entries@.map_values(|entry: KeyOffset| entry@),
            ),
        decreases records.len() - i,
    {
        proof {
            assert(all.take(i + 1).drop_last() =~= all.take(i as int));
            assert(all.take(i + 1).last() == records@[i as int]@);
        }
        match key_of_record(&records[i], key_index) {
            Ok(entry) => {
                proof {
                    assert(entries@.push(entry).map_values(|entry: KeyOffset| entry@)
                        =~= entries@.map_values(|entry: KeyOffset| entry@).push(entry@));
                }
                entries.push(entry);
            },
            Err(e) => {
                proof {
                    lemma_extracted_error(all, i as int, key_index as int);
                }
                return Err(e);
            },
        }
        i += 1;
    }
    proof {
        assert(all.take(i as int) =~= all);
    }
    Ok(entries)
}

/// Once a record fails, the records after it no longer matter.
pub proof fn lemma_extracted_error(records: Seq<RecordView>, i: int, key_index: int)
    requires
        0 <= i < records.len(),
        extracted(records.take(i + 1), key_index) is Err,
    ensures
        extracted(records, key_index) == extracted(records.take(i + 1), key_index),
    decreases records.len(),
{
    if i + 1 == records.len() {
        assert(records.take(i + 1) =~= records);
    } else {
        assert(records.drop_last().take(i + 1) =~= records.take(i + 1));
        lemma_extracted_error(records.drop_last(), i, key_index);
    }
}

} // verus!
