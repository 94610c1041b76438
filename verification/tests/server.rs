use nexusdb::index_manager::index_manager::IndexManager;
use nexusdb::protocol::parse_request;
use nexusdb::protocol::Request;
use nexusdb::protocol::RequestError;
use nexusdb::server::decimal_string;
use nexusdb::server::initialize_database;
use nexusdb::server::insert_data;
use nexusdb::server::insert_response;
use nexusdb::server::process_request;
use nexusdb::server::query_data;
use nexusdb::server::query_response;
use nexusdb::server::Action;

#[test]
fn requests_are_read_word_by_word() {
    assert_eq!(
        parse_request(b"INSERT temperature 1000 42"),
        Ok(Request::Insert { tag: b"temperature".to_vec(), timestamp: 1000, value: 42 })
    );
    assert_eq!(
        parse_request(b"  INSERT\tt  -5 \n -7 and more"),
        Ok(Request::Insert { tag: b"t".to_vec(), timestamp: -5, value: -7 })
    );
    assert_eq!(
        parse_request(b"QUERY t +0012"),
        Ok(Request::Query { tag: b"t".to_vec(), timestamp: 12 })
    );
    assert_eq!(
        parse_request(b"QUERY t 9223372036854775807 x"),
        Ok(Request::Query { tag: b"t".to_vec(), timestamp: i64::MAX })
    );
    assert_eq!(
        parse_request(b"INSERT t -9223372036854775808 -2147483648"),
        Ok(Request::Insert { tag: b"t".to_vec(), timestamp: i64::MIN, value: i32::MIN })
    );
}

#[test]
fn texts_that_are_no_requests_are_refused() {
    assert_eq!(parse_request(b""), Err(RequestError::InvalidFormat));
    assert_eq!(parse_request(b"   "), Err(RequestError::InvalidFormat));
    assert_eq!(parse_request(b"INSERT"), Err(RequestError::InvalidFormat));
    assert_eq!(parse_request(b"INSERT t"), Err(RequestError::InvalidInsertFormat));
    assert_eq!(parse_request(b"INSERT t 1"), Err(RequestError::InvalidInsertFormat));
    assert_eq!(parse_request(b"INSERT t x 1"), Err(RequestError::InvalidTimestamp));
    assert_eq!(parse_request(b"INSERT t 1 x"), Err(RequestError::InvalidValue));
    assert_eq!(parse_request(b"INSERT t 1 2147483648"), Err(RequestError::InvalidValue));
    assert_eq!(parse_request(b"INSERT t 1 1.5"), Err(RequestError::InvalidValue));
    assert_eq!(parse_request(b"INSERT t 1 -"), Err(RequestError::InvalidValue));
    assert_eq!(parse_request(b"INSERT t 1 +-1"), Err(RequestError::InvalidValue));
    assert_eq!(parse_request(b"QUERY t"), Err(RequestError::InvalidQueryFormat));
    assert_eq!(parse_request(b"QUERY t 9223372036854775808"), Err(RequestError::InvalidTimestamp));
    assert_eq!(parse_request(b"QUERY t 12a"), Err(RequestError::InvalidTimestamp));
    assert_eq!(parse_request(b"query t 1"), Err(RequestError::UnknownCommand));
    assert_eq!(parse_request(b"DELETE t"), Err(RequestError::UnknownCommand));
    assert_eq!(RequestError::InvalidFormat.message(), "Error: Invalid request format");
    assert_eq!(RequestError::InvalidInsertFormat.message(), "Error: Invalid INSERT format");
    assert_eq!(RequestError::InvalidQueryFormat.message(), "Error: Invalid QUERY format");
    assert_eq!(RequestError::InvalidTimestamp.message(), "Error: Invalid timestamp");
    assert_eq!(RequestError::InvalidValue.message(), "Error: Invalid value");
    assert_eq!(RequestError::UnknownCommand.message(), "Error: Unknown command");
}

#[test]
fn the_index_keeps_the_last_entry_of_a_tag() {
    let mut index = IndexManager::new();
    assert!(index.get_index_entry("a").is_none());
    index.add_index_entry("a".to_string(), "one".to_string(), 10);
    index.add_index_entry("b".to_string(), "two".to_string(), 20);
    index.add_index_entry("a".to_string(), "three".to_string(), 30);
    assert_eq!(index.indices.len(), 2);
    let a = index.get_index_entry("a").unwrap();
    assert_eq!(a.uuid, "three");
    assert_eq!(a.last_modified, 30);
    assert_eq!(index.get_index_entry("b").unwrap().uuid, "two");
    assert!(index.get_index_entry("c").is_none());
    assert_eq!(index.find_entry(b"b").unwrap().last_modified, 20);
    assert!(index.find_entry(b"B").is_none());
    assert_eq!(index.file_name("a"), Some("three.bin".to_string()));
    assert_eq!(index.file_name("z"), None);
}

#[test]
fn requests_become_actions() {
    let mut index = IndexManager::new();
    let stored = initialize_database(&mut index, "temp_data.bin", 1234);
    assert_eq!(index.get_index_entry("temperature").unwrap().uuid, "temp_data.bin");
    assert_eq!(index.get_index_entry("temperature").unwrap().last_modified, 1234);
    assert_eq!(
        stored,
        vec![0, 0, 0, 0, 0, 0, 0, 0, 0xE8, 3, 0, 0, 4, 0, 0, 0, 0, 0, 42, 0, 0, 0]
    );
    assert_eq!(
        process_request("INSERT temperature 2000 -7", &index),
        Action::Insert { file_name: "temp_data.bin".to_string(), timestamp: 2000, value: -7 }
    );
    assert_eq!(
        process_request("QUERY temperature 1000", &index),
        Action::Query { file_name: "temp_data.bin".to_string(), timestamp: 1000 }
    );
    assert_eq!(
        process_request("QUERY pressure 1000", &index),
        Action::Reply("Error: Tag not found".to_string())
    );
    assert_eq!(
        process_request("INSERT pressure 1000 5", &index),
        Action::Reply("Error: Tag not found".to_string())
    );
    assert_eq!(
        process_request("QUERY", &index),
        Action::Reply("Error: Invalid request format".to_string())
    );
    assert_eq!(
        process_request("INSERT pressure x 5", &index),
        Action::Reply("Error: Invalid timestamp".to_string())
    );
}

#[test]
fn values_are_stored_and_found_again() {
    let mut index = IndexManager::new();
    let stored = initialize_database(&mut index, "f", 0);
    assert_eq!(query_data(&stored, 1000), Some(42));
    assert_eq!(query_data(&stored, 1499), Some(42));
    assert_eq!(query_data(&stored, 0), Some(0));
    assert_eq!(query_data(&stored, 1500), None);
    assert_eq!(query_data(&stored[..10], 1000), None);
    let next = insert_data(&stored, 3000, -2).unwrap();
    assert_eq!(next.len(), 14 + 16);
    assert_eq!(query_data(&next, 3000), Some(-2));
    assert_eq!(query_data(&next, 2000), Some(0));
    assert_eq!(query_data(&next, 1000), Some(42));
    let over = insert_data(&next, 1000, i32::MIN).unwrap();
    assert_eq!(query_data(&over, 1000), Some(i32::MIN));
    assert_eq!(insert_data(&stored[..13], 1000, 1), None);
    assert_eq!(insert_data(&stored, -2000, 1), None);
    let mut no_interval = stored.clone();
    no_interval[8] = 0;
    no_interval[9] = 0;
    assert_eq!(insert_data(&no_interval, 1000, 1), None);
    assert_eq!(query_data(&no_interval, 1000), None);
}

#[test]
fn answers_are_written_in_decimal() {
    assert_eq!(query_response(1000, Some(42)), "Data at 1000: 42");
    assert_eq!(query_response(-5, Some(-17)), "Data at -5: -17");
    assert_eq!(query_response(7, None), "Error: Data not found");
    assert_eq!(insert_response(), "Data inserted successfully");
    assert_eq!(decimal_string(0), "0");
    assert_eq!(decimal_string(i64::MIN), "-9223372036854775808");
    assert_eq!(decimal_string(i64::MAX), "9223372036854775807");
}
