use nexusdb::storage::nffile::flush_nffile;
use nexusdb::storage::nffile::load_nffile;
use nexusdb::storage::nffile::read_header;
use nexusdb::storage::nffile::NFFile;

fn as_i32(bytes: &[u8]) -> i32 {
    i32::from_ne_bytes(bytes.try_into().unwrap())
}

fn as_f64(bytes: &[u8]) -> f64 {
    f64::from_ne_bytes(bytes.try_into().unwrap())
}

#[test]
fn test_add_data_and_reload_i32() {
    let file_path = "test_add_data.bin".to_string();

    let mut nf_file = NFFile::new(0, 1000, 4, Some(file_path.clone()));
    let value: i32 = 12345;
    nf_file.add_data(1000, &value.to_ne_bytes());
    nf_file.add_data(2000, &54321i32.to_ne_bytes());
    nf_file.add_data(2500, &67890i32.to_ne_bytes());

    let result = nf_file.query_data(1000, 4);
    assert!(result.is_some());
    assert_eq!(as_i32(result.unwrap()), 12345);

    let stored = flush_nffile(&nf_file);

    let mut loaded_nf_file = NFFile::new(0, 1000, 4, Some(file_path.clone()));
    assert!(load_nffile(&mut loaded_nf_file, &stored), "Failed to load data from file");

    let loaded_result = loaded_nf_file.query_data(1000, 4);
    assert!(loaded_result.is_some());
    assert_eq!(as_i32(loaded_result.unwrap()), 12345);
    assert_eq!(as_i32(loaded_nf_file.query_data(2000, 4).unwrap()), 54321);
    assert_eq!(as_i32(loaded_nf_file.query_data(3000, 4).unwrap()), 67890);
}

#[test]
fn test_range_write_read_and_reload_i32() {
    let file_path = "test_data.bin".to_string();

    let mut nf_file = NFFile::new(0, 1000, 4, Some(file_path.clone()));
    let values: [i32; 8] = [10, 20, 30, 40, 50, 50, 60, 60];
    let bytes: Vec<u8> = values.iter().flat_map(|v| v.to_ne_bytes()).collect();
    nf_file.range_write(1000, &bytes);

    let result = nf_file.range_read(1000, 3, 4);
    assert_eq!(result.len(), 3);
    assert_eq!(as_i32(result[0]), 10);
    assert_eq!(as_i32(result[1]), 20);
    assert_eq!(as_i32(result[2]), 30);

    let stored = flush_nffile(&nf_file);

    let mut loaded_nf_file = NFFile::new(0, 1000, 4, Some(file_path));
    assert!(load_nffile(&mut loaded_nf_file, &stored), "Failed to load data from file");

    let loaded_result = loaded_nf_file.range_read(1000, 3, 4);
    assert_eq!(loaded_result.len(), 3);
    assert_eq!(as_i32(loaded_result[0]), 10);
    assert_eq!(as_i32(loaded_result[1]), 20);
    assert_eq!(as_i32(loaded_result[2]), 30);
}

#[test]
fn test_range_write_and_read_f64() {
    let mut nf_file = NFFile::new(0, 1000, 4, None);

    let values: [f64; 2] = [3.14, 6.28];
    let bytes: Vec<u8> = values.iter().flat_map(|v| v.to_ne_bytes()).collect();
    nf_file.range_write(2000, &bytes);

    let result = nf_file.range_read(2000, 2, 8);
    assert_eq!(result.len(), 2);
    assert_eq!(as_f64(result[0]), 3.14);
    assert_eq!(as_f64(result[1]), 6.28);
}

#[test]
fn test_range_read_out_of_bounds() {
    let mut nf_file = NFFile::new(0, 1000, 4, None);

    let values: [i32; 3] = [10, 20, 30];
    let bytes: Vec<u8> = values.iter().flat_map(|v| v.to_ne_bytes()).collect();
    nf_file.range_write(1000, &bytes);

    let result = nf_file.range_read(4000, 3, 4);
    assert_eq!(result.len(), 0);
}

#[test]
fn a_series_without_a_name_gets_one_of_its_own() {
    let first = NFFile::new(0, 1000, 4, None);
    let second = NFFile::new(0, 1000, 4, None);
    for path in [&first.file_path, &second.file_path] {
        assert_eq!(path.len(), 40);
        assert!(path.ends_with(".bin"));
        for (i, c) in path[..36].chars().enumerate() {
            if i == 8 || i == 13 || i == 18 || i == 23 {
                assert_eq!(c, '-');
            } else {
                assert!(c.is_ascii_digit() || ('a'..='f').contains(&c));
            }
        }
    }
    assert_ne!(first.file_path, second.file_path);
    let named = NFFile::new(5, 10, 2, Some("series.bin".to_string()));
    assert_eq!(named.file_path, "series.bin");
    assert_eq!(named.header.start_ts, 5);
    assert_eq!(named.header.interval, 10);
    assert_eq!(named.header.data_length, 2);
    assert!(named.data.is_empty());
}

#[test]
fn a_timestamp_belongs_to_the_nearest_slot() {
    let mut nf_file = NFFile::new(100, 10, 2, Some("s".to_string()));
    nf_file.add_data(114, &[1, 2]);
    assert_eq!(nf_file.data, vec![0, 0, 1, 2]);
    nf_file.add_data(115, &[3, 4]);
    assert_eq!(nf_file.data, vec![0, 0, 1, 2, 3, 4]);
    nf_file.add_data(96, &[9]);
    assert_eq!(nf_file.data, vec![9, 0, 1, 2, 3, 4]);
    assert_eq!(nf_file.query_data(106, 2), Some(&[1, 2][..]));
    assert_eq!(nf_file.query_data(124, 2), Some(&[3, 4][..]));
    assert_eq!(nf_file.query_data(125, 2), None);
    assert_eq!(nf_file.query_data(120, 3), None);
    assert_eq!(nf_file.range_read(100, 10, 4), vec![&[9, 0, 1, 2][..]]);
    assert_eq!(nf_file.range_read(100, 2, 0).len(), 2);
}

#[test]
fn the_file_of_a_series_begins_with_its_header() {
    let mut nf_file = NFFile::new(-2, 0x01020304, 0x0506, Some("s".to_string()));
    nf_file.data = vec![7, 8, 9];
    let stored = flush_nffile(&nf_file);
    assert_eq!(
        stored,
        vec![0xFE, 0xFF, 0xFF, 0xFF, 0xFF, 0xFF, 0xFF, 0xFF, 4, 3, 2, 1, 6, 5, 7, 8, 9]
    );
    let header = read_header(&stored).unwrap();
    assert_eq!(header.start_ts, -2);
    assert_eq!(header.interval, 0x01020304);
    assert_eq!(header.data_length, 0x0506);
    assert!(read_header(&stored[..13]).is_none());
    let mut other = NFFile::new(0, 1, 1, Some("kept".to_string()));
    assert!(!load_nffile(&mut other, &stored[..13]));
    assert_eq!(other.header.interval, 1);
    assert!(load_nffile(&mut other, &stored));
    assert_eq!(other.header.start_ts, -2);
    assert_eq!(other.data, vec![7, 8, 9]);
    assert_eq!(other.file_path, "kept");
    assert!(load_nffile(&mut other, &stored[..14]));
    assert!(other.data.is_empty());
}
