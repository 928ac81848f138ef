use glossary::{
    build_index, extract_keys, generate_index, key_of_record, sort_entries, write_index,
    IndexError, KeyOffset, Record,
};

const SMALL: &[u8] = b"pear,Lyon,3\napple,Oslo,1\nfig,Rome,2\nkiwi,Bern,4";

fn word(value: u64) -> Vec<u8> {
    value.to_le_bytes().to_vec()
}

fn entry(key: &str, offset: u64) -> KeyOffset {
    KeyOffset { key: key.to_string(), offset }
}

fn pairs(entries: &[KeyOffset]) -> Vec<(String, u64)> {
    entries.iter().map(|e| (e.key.clone(), e.offset)).collect()
}

fn record(fields: &[&[u8]], offset: Option<u64>) -> Record {
    Record { fields: fields.iter().map(|f| f.to_vec()).collect(), offset }
}

#[test]
fn small_source_gives_the_exact_index_bytes() {
    let files = generate_index(SMALL, 0, b',').unwrap();

    let mut index = Vec::new();
    for (key, offset) in [("apple", 12u64), ("fig", 25), ("kiwi", 36), ("pear", 0)] {
        index.extend_from_slice(key.as_bytes());
        index.extend_from_slice(&word(offset));
    }
    assert_eq!(files.index, index);
    assert_eq!(files.index.len(), 48);

    let mut top_index = Vec::new();
    for (length, offset) in [(5u64, 0u64), (3, 13), (4, 24), (4, 36)] {
        top_index.extend_from_slice(&word(length));
        top_index.extend_from_slice(&word(offset));
    }
    assert_eq!(files.top_index, top_index);
    assert_eq!(files.top_index.len(), 64);
}

#[test]
fn another_key_column_gives_another_order_over_the_same_rows() {
    let by_name = generate_index(SMALL, 0, b',').unwrap();
    let by_city = generate_index(SMALL, 1, b',').unwrap();

    let mut index = Vec::new();
    for (key, offset) in [("Bern", 36u64), ("Lyon", 0), ("Oslo", 12), ("Rome", 25)] {
        index.extend_from_slice(key.as_bytes());
        index.extend_from_slice(&word(offset));
    }
    assert_eq!(by_city.index, index);
    assert_eq!(by_city.top_index.len(), by_name.top_index.len());
    assert_ne!(by_city.index, by_name.index);

    // the first build is what it was
    assert_eq!(by_name.index, generate_index(SMALL, 0, b',').unwrap().index);
}

#[test]
fn another_delimiter_is_accepted() {
    let with_semicolons = b"pear;Lyon\napple;Oslo\n";
    let files = generate_index(with_semicolons, 1, b';').unwrap();
    let mut index = Vec::new();
    index.extend_from_slice(b"Lyon");
    index.extend_from_slice(&word(0));
    index.extend_from_slice(b"Oslo");
    index.extend_from_slice(&word(10));
    assert_eq!(files.index, index);

    let with_tabs = b"pear\tLyon\n";
    let files = generate_index(with_tabs, 0, b'\t').unwrap();
    let mut index = Vec::new();
    index.extend_from_slice(b"pear");
    index.extend_from_slice(&word(0));
    assert_eq!(files.index, index);
    // a comma is then no delimiter
    let files = generate_index(b"a,b\tc\n", 0, b'\t').unwrap();
    assert_eq!(&files.index[..3], b"a,b");
}

#[test]
fn the_last_row_needs_no_terminator() {
    let with = generate_index(b"c\nb\na\n", 0, b',').unwrap();
    let without = generate_index(b"c\nb\na", 0, b',').unwrap();
    assert_eq!(with.index, without.index);
    assert_eq!(with.top_index, without.top_index);
    assert_eq!(with.top_index.len(), 48);
    let mut index = Vec::new();
    for (key, offset) in [("a", 4u64), ("b", 2), ("c", 0)] {
        index.extend_from_slice(key.as_bytes());
        index.extend_from_slice(&word(offset));
    }
    assert_eq!(without.index, index);
}

#[test]
fn an_empty_source_gives_empty_files() {
    let files = generate_index(b"", 0, b',').unwrap();
    assert!(files.index.is_empty());
    assert!(files.top_index.is_empty());
    // whatever the key column: there is no record to lack it
    let files = generate_index(b"", 9, b';').unwrap();
    assert!(files.index.is_empty());
    assert!(files.top_index.is_empty());
}

#[test]
fn a_source_of_one_row_gives_one_entry() {
    let files = generate_index(b"only,one,row\n", 1, b',').unwrap();
    let mut index = b"one".to_vec();
    index.extend_from_slice(&word(0));
    assert_eq!(files.index, index);
    let mut top_index = word(3);
    top_index.extend_from_slice(&word(0));
    assert_eq!(files.top_index, top_index);
}

#[test]
fn the_first_row_is_indexed_like_every_other() {
    let source = b"1,b\n2,a\n";

    let by_second = generate_index(source, 1, b',').unwrap();
    let mut index = Vec::new();
    index.extend_from_slice(b"a");
    index.extend_from_slice(&word(4));
    index.extend_from_slice(b"b");
    index.extend_from_slice(&word(0));
    assert_eq!(by_second.index, index);
    let mut top_index = Vec::new();
    for value in [1u64, 0, 1, 9] {
        top_index.extend_from_slice(&word(value));
    }
    assert_eq!(by_second.top_index, top_index);
    assert_eq!(by_second.top_index.len(), 32);

    // by the first column the rows stand the other way round
    let by_first = generate_index(source, 0, b',').unwrap();
    let mut index = Vec::new();
    index.extend_from_slice(b"1");
    index.extend_from_slice(&word(0));
    index.extend_from_slice(b"2");
    index.extend_from_slice(&word(4));
    assert_eq!(by_first.index, index);
    assert_eq!(by_first.top_index, top_index);
}

#[test]
fn a_key_column_that_the_records_lack_is_a_parse_error() {
    assert_eq!(generate_index(SMALL, 3, b',').unwrap_err(), IndexError::Parse);
    assert_eq!(generate_index(SMALL, 2, b',').is_ok(), true);
}

#[test]
fn records_of_unequal_length_are_a_format_error() {
    let ragged = b"a,b\n1,2\n3\n";
    assert_eq!(generate_index(ragged, 0, b',').unwrap_err(), IndexError::Format);
}

#[test]
fn a_key_that_is_not_utf8_is_a_format_error() {
    let data = b"pear,Lyon\n\xff\xfe,Oslo\n";
    assert_eq!(generate_index(data, 0, b',').unwrap_err(), IndexError::Format);
    assert_eq!(generate_index(data, 1, b',').is_ok(), true);
    // in the first row too
    assert_eq!(generate_index(b"\xff\xfe,Lyon\n", 0, b',').unwrap_err(), IndexError::Format);
}

#[test]
fn key_of_record_takes_the_column_and_the_offset() {
    let r = record(&[b"pear", b"Lyon"], Some(15));
    let entry = key_of_record(&r, 1).unwrap();
    assert_eq!(entry.key, "Lyon");
    assert_eq!(entry.offset, 15);
    assert_eq!(key_of_record(&r, 2).unwrap_err(), IndexError::Parse);
    assert_eq!(
        key_of_record(&record(&[b"pear"], None), 0).unwrap_err(),
        IndexError::Format
    );
    assert_eq!(
        key_of_record(&record(&[b"\xc3"], Some(0)), 0).unwrap_err(),
        IndexError::Format
    );
    // a missing column is reported before a missing offset
    assert_eq!(
        key_of_record(&record(&[b"pear"], None), 1).unwrap_err(),
        IndexError::Parse
    );
}

#[test]
fn extract_keys_keeps_file_order_and_reports_the_first_error() {
    let records = vec![
        record(&[b"pear", b"Lyon"], Some(15)),
        record(&[b"apple", b"Oslo"], Some(27)),
    ];
    let entries = extract_keys(&records, 0).unwrap();
    assert_eq!(
        pairs(&entries),
        vec![("pear".to_string(), 15), ("apple".to_string(), 27)]
    );

    let records = vec![
        record(&[b"pear", b"Lyon"], Some(15)),
        record(&[b"\xff", b"Oslo"], Some(27)),
        record(&[b"fig"], Some(40)),
    ];
    assert_eq!(extract_keys(&records, 0).unwrap_err(), IndexError::Format);
    assert_eq!(extract_keys(&records, 1).unwrap_err(), IndexError::Parse);
    assert_eq!(extract_keys(&Vec::new(), 7).unwrap().len(), 0);
}

#[test]
fn sort_entries_orders_by_key_bytes_then_by_offset() {
    let entries = vec![
        entry("b", 9),
        entry("B", 8),
        entry("ab", 7),
        entry("a", 6),
        entry("b", 1),
        entry("10", 5),
        entry("9", 4),
        entry("", 3),
        entry("é", 2),
    ];
    let sorted = sort_entries(&entries);
    assert_eq!(
        pairs(&sorted),
        vec![
            ("".to_string(), 3),
            ("10".to_string(), 5),
            ("9".to_string(), 4),
            ("B".to_string(), 8),
            ("a".to_string(), 6),
            ("ab".to_string(), 7),
            ("b".to_string(), 1),
            ("b".to_string(), 9),
            ("é".to_string(), 2),
        ]
    );
    assert_eq!(sort_entries(&Vec::new()).len(), 0);
    // the input is left as it was
    assert_eq!(entries[0].key, "b");
    assert_eq!(entries[0].offset, 9);
}

#[test]
fn sort_entries_agrees_with_the_standard_sort_on_many_entries() {
    let mut entries = Vec::new();
    let mut state: u64 = 12345;
    for offset in 0..500u64 {
        state = state.wrapping_mul(6364136223846793005).wrapping_add(1442695040888963407);
        entries.push(entry(&format!("k{}", (state >> 33) % 97), offset));
    }
    let mut expected = pairs(&entries);
    expected.sort_by(|a, b| a.0.as_bytes().cmp(b.0.as_bytes()).then(a.1.cmp(&b.1)));
    assert_eq!(pairs(&sort_entries(&entries)), expected);
}

#[test]
fn write_index_keeps_the_given_order_and_sums_the_offsets() {
    let entries = vec![entry("zz", 1), entry("", 2), entry("a", 3)];
    let files = write_index(&entries);
    let mut index = Vec::new();
    index.extend_from_slice(b"zz");
    index.extend_from_slice(&word(1));
    index.extend_from_slice(&word(2));
    index.extend_from_slice(b"a");
    index.extend_from_slice(&word(3));
    assert_eq!(files.index, index);
    let mut top_index = Vec::new();
    for (length, offset) in [(2u64, 0u64), (0, 10), (1, 18)] {
        top_index.extend_from_slice(&word(length));
        top_index.extend_from_slice(&word(offset));
    }
    assert_eq!(files.top_index, top_index);

    let files = write_index(&Vec::new());
    assert!(files.index.is_empty() && files.top_index.is_empty());
}

#[test]
fn build_index_is_extract_then_sort_then_write() {
    let records = vec![
        record(&[b"pear", b"Lyon"], Some(15)),
        record(&[b"apple", b"Oslo"], Some(27)),
    ];
    let files = build_index(&records, 0).unwrap();
    let expected = write_index(&[entry("apple", 27), entry("pear", 15)].to_vec());
    assert_eq!(files.index, expected.index);
    assert_eq!(files.top_index, expected.top_index);
    assert_eq!(build_index(&records, 2).unwrap_err(), IndexError::Parse);
}
