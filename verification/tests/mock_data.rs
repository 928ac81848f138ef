use glossary::{find_key, generate_index, get_matching_row, read_row, search};

const HEADER: &str = "id,first_name,last_name,email,gender,ip_address\n";
const ROW_525: &str = "525,Corrinne,Kaman,ckamanek@jimdo.com,Female,23.16.105.124\n";
const ROW_727: &str = "727,Antone,Arndtsen,aarndtsenk6@marriott.com,Male,251.8.128.77\n";
const ROW_900: &str = "900,Zonnya,Sparks,zsparksoz@twitter.com,Female,248.252.234.26\n";

fn filler_row(id: u32, length: Option<usize>) -> String {
    let plain = format!("{},Filler,Row,m{}@example.com,Other,10.0.0.1\n", id, id);
    match length {
        None => plain,
        Some(n) => format!(
            "{},Filler{},Row,m{}@example.com,Other,10.0.0.1\n",
            id,
            "x".repeat(n - plain.len()),
            id
        ),
    }
}

fn fill_to(data: &mut Vec<u8>, target: usize, next_id: &mut u32) {
    while data.len() < target {
        let remaining = target - data.len();
        let row = if remaining < 150 {
            filler_row(*next_id, Some(remaining))
        } else {
            filler_row(*next_id, None)
        };
        data.extend_from_slice(row.as_bytes());
        *next_id += 1;
    }
    assert_eq!(data.len(), target);
}

/// A source of about a thousand rows in which the three known rows stand at
/// the offsets 32490, 44971 and 55806.
fn mock_data() -> Vec<u8> {
    let mut data = HEADER.as_bytes().to_vec();
    let mut id = 1000;
    fill_to(&mut data, 32490, &mut id);
    data.extend_from_slice(ROW_525.as_bytes());
    fill_to(&mut data, 44971, &mut id);
    data.extend_from_slice(ROW_727.as_bytes());
    fill_to(&mut data, 55806, &mut id);
    data.extend_from_slice(ROW_900.as_bytes());
    fill_to(&mut data, 60000, &mut id);
    data
}

#[test]
fn test_get_matching_row() {
    let data = mock_data();
    let files = generate_index(&data, 3, b',').expect("could not build the index");

    let row = get_matching_row(
        &data,
        &files.top_index,
        &files.index,
        String::from("ckamanek@jimdo.com"),
    )
    .unwrap()
    .unwrap();
    assert_eq!(
        row,
        "525,Corrinne,Kaman,ckamanek@jimdo.com,Female,23.16.105.124\n"
    );

    let row = get_matching_row(
        &data,
        &files.top_index,
        &files.index,
        String::from("aarndtsenk6@marriott.com"),
    )
    .unwrap()
    .unwrap();
    assert_eq!(
        row,
        "727,Antone,Arndtsen,aarndtsenk6@marriott.com,Male,251.8.128.77\n"
    );

    let row = get_matching_row(
        &data,
        &files.top_index,
        &files.index,
        String::from("zsparksoz@twitter.com"),
    )
    .unwrap()
    .unwrap();
    assert_eq!(
        row,
        "900,Zonnya,Sparks,zsparksoz@twitter.com,Female,248.252.234.26\n"
    );
}

#[test]
fn test_search() {
    let data = mock_data();
    let files = generate_index(&data, 3, b',').expect("could not build the index");

    let offset = find_key(
        &files.top_index,
        &files.index,
        String::from("ckamanek@jimdo.com"),
    )
    .unwrap()
    .unwrap();
    assert_eq!(offset.key, "ckamanek@jimdo.com");
    assert_eq!(offset.offset, 32490);

    let offset = find_key(
        &files.top_index,
        &files.index,
        String::from("aarndtsenk6@marriott.com"),
    )
    .unwrap()
    .unwrap();
    assert_eq!(offset.key, "aarndtsenk6@marriott.com");
    assert_eq!(offset.offset, 44971);

    let offset = find_key(
        &files.top_index,
        &files.index,
        String::from("zsparksoz@twitter.com"),
    )
    .unwrap()
    .unwrap();
    assert_eq!(offset.key, "zsparksoz@twitter.com");
    assert_eq!(offset.offset, 55806);
}

#[test]
fn test_bad_search() {
    let data = mock_data();
    let files = generate_index(&data, 3, b',').expect("could not build the index");

    let offset = search(&files.top_index, &files.index, "asdfasdfasd").unwrap();

    assert_eq!(offset.is_none(), true);
}

#[test]
fn test_generate_index() {
    let data = mock_data();
    let files = generate_index(&data, 3, b',').expect("could not build the index");

    // test top level index
    let mut length_bytes = [0; 8];
    let mut offset_bytes = [0; 8];
    length_bytes.copy_from_slice(&files.top_index[0..8]);
    offset_bytes.copy_from_slice(&files.top_index[8..16]);
    let length = u64::from_le_bytes(length_bytes);
    let offset = u64::from_le_bytes(offset_bytes);

    // first key is aarndtsenk6@marriott.com which is 24 bytes
    assert_eq!(length, 24);
    assert_eq!(offset, 0);

    // test index
    let key_bytes = files.index[0..length as usize].to_vec();
    let mut offset_bytes = [0; 8];
    offset_bytes.copy_from_slice(&files.index[length as usize..length as usize + 8]);
    let offset = u64::from_le_bytes(offset_bytes);

    assert_eq!(
        std::str::from_utf8(&key_bytes).expect("could not convert to str"),
        "aarndtsenk6@marriott.com"
    );
    assert_eq!(offset, 44971);

    // test data access
    let row = read_row(&data, offset).expect("could not read row");

    assert_eq!(
        row,
        "727,Antone,Arndtsen,aarndtsenk6@marriott.com,Male,251.8.128.77\n"
    )
}

#[test]
fn every_row_of_the_mock_data_is_found_again() {
    let data = mock_data();
    let files = generate_index(&data, 3, b',').unwrap();
    let text = String::from_utf8(data.clone()).unwrap();
    let mut offset = 0;
    let mut rows = 0;
    for line in text.split_inclusive('\n') {
        let key = line.split(',').nth(3).unwrap();
        let entry = find_key(&files.top_index, &files.index, key.to_string())
            .unwrap()
            .unwrap();
        assert_eq!(entry.key, key);
        assert_eq!(entry.offset, offset as u64);
        let row = get_matching_row(&data, &files.top_index, &files.index, key.to_string())
            .unwrap()
            .unwrap();
        assert_eq!(row, line);
        offset += line.len();
        rows += 1;
    }
    assert_eq!(files.top_index.len(), 16 * rows);
    assert!(rows > 900);
}

#[test]
fn the_first_row_of_the_mock_data_is_found_like_every_other() {
    let data = mock_data();
    let files = generate_index(&data, 3, b',').unwrap();
    let entry = find_key(&files.top_index, &files.index, String::from("email")).unwrap().unwrap();
    assert_eq!(entry.key, "email");
    assert_eq!(entry.offset, 0);
    assert_eq!(
        get_matching_row(&data, &files.top_index, &files.index, String::from("email")),
        Ok(Some(HEADER.to_string()))
    );
}
