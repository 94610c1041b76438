use nexusdb::storage::file::Header;
use nexusdb::storage::file::NFFile;

#[test]
fn test_initialization() {
    let header = Header {
        version: 1,
        start_ts: 1609459200000,
        interval: 1000,
        data_length: 4,
    };
    let nf_file = NFFile::new(header);
    assert_eq!(nf_file.header.version, 1);
    assert_eq!(nf_file.data.len(), 0);
    assert_eq!(nf_file.cursor, 0);
}

#[test]
fn test_add_data() {
    let header = Header {
        version: 1,
        start_ts: 1609459200000,
        interval: 1000,
        data_length: 4,
    };
    let mut nf_file = NFFile::new(header);
    let data = [0, 1, 2, 3];
    nf_file.add_data(1609459200000, &data);
    assert_eq!(nf_file.data, vec![0, 1, 2, 3]);
    assert_eq!(nf_file.cursor, 4);

    let new_data = [4, 5, 6, 7];
    nf_file.add_data(1609459201000, &new_data);
    assert_eq!(nf_file.data, vec![0, 1, 2, 3, 4, 5, 6, 7]);
    assert_eq!(nf_file.cursor, 8);
}

#[test]
fn test_query_data() {
    let header = Header {
        version: 1,
        start_ts: 1609459200000,
        interval: 1000,
        data_length: 4,
    };
    let mut nf_file = NFFile::new(header);
    let data = [0, 1, 2, 3];
    nf_file.add_data(1609459200000, &data);
    let result = nf_file.query_data(1609459200000);
    assert_eq!(result, Some(&[0, 1, 2, 3][..]));

    let missing_result = nf_file.query_data(1609459201000);
    assert_eq!(missing_result, None);
}

#[test]
fn add_data_pads_skipped_slots_with_zeros() {
    let header = Header {
        version: 1,
        start_ts: 10,
        interval: 5,
        data_length: 2,
    };
    let mut nf_file = NFFile::new(header);
    nf_file.add_data(21, &[9]);
    assert_eq!(nf_file.data, vec![0, 0, 0, 0, 9, 0]);
    assert_eq!(nf_file.cursor, 6);
    assert_eq!(nf_file.query_data(15), Some(&[0, 0][..]));
    assert_eq!(nf_file.query_data(24), Some(&[9, 0][..]));
    assert_eq!(nf_file.query_data(25), None);
}
