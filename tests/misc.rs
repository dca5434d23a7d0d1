use toolcraft::form::FormField;
use toolcraft::response::{CommonError, Empty};
use toolcraft::time_util::{
    get_current_timestamp_millis, get_current_timestamp_secs, millis_from_offset, secs_from_offset,
    timestamp_to_date, timestamp_to_rfc3339, MAX_DATED, MIN_DATED, MIN_RFC3339,
};

#[test]
fn form_text_field() {
    match FormField::text("username", "john_doe") {
        FormField::Text { name, value } => {
            assert_eq!(name, "username");
            assert_eq!(value, "john_doe");
        }
        other => panic!("unexpected {other:?}"),
    }
}

#[test]
fn form_file_field() {
    match FormField::file_from_bytes("avatar", "photo.jpg", b"file content".to_vec()) {
        FormField::File { name, filename, content } => {
            assert_eq!(name, "avatar");
            assert_eq!(filename, "photo.jpg");
            assert_eq!(content, b"file content".to_vec());
        }
        other => panic!("unexpected {other:?}"),
    }
}

#[test]
fn common_error_from_pair() {
    let e = CommonError::from((404, "not found"));
    assert_eq!(e.code, 404);
    assert_eq!(e.message, "not found");
    let _ = Empty;
}

#[test]
fn offsets_to_timestamps() {
    assert_eq!(secs_from_offset(true, 1_700_000_000), 1_700_000_000);
    assert_eq!(secs_from_offset(false, 5), -5);
    assert_eq!(secs_from_offset(true, u64::MAX), i64::MAX);
    assert_eq!(millis_from_offset(true, 2, 345_678_901), 2_345);
    assert_eq!(millis_from_offset(false, 1, 500_000_000), -1_500);
    assert_eq!(millis_from_offset(true, u64::MAX, 0), i64::MAX);
}

#[test]
fn clock_is_after_2020() {
    let secs = get_current_timestamp_secs();
    let millis = get_current_timestamp_millis();
    assert!(secs > 1_577_836_800);
    assert!(millis / 1000 >= secs);
}

#[test]
fn dates_of_timestamps() {
    assert_eq!(timestamp_to_date(0), "1970-01-01");
    assert_eq!(timestamp_to_date(1_546_300_800), "2019-01-01");
    assert_eq!(timestamp_to_date(-1), "1969-12-31");
    assert_eq!(timestamp_to_date(MAX_DATED), "9999-12-31");
    assert_eq!(timestamp_to_date(MIN_DATED), "-9999-01-01");
}

#[test]
fn rfc3339_of_timestamps() {
    assert_eq!(timestamp_to_rfc3339(0), "1970-01-01T00:00:00Z");
    assert_eq!(timestamp_to_rfc3339(1_546_300_800), "2019-01-01T00:00:00Z");
    assert_eq!(timestamp_to_rfc3339(MIN_RFC3339), "0000-01-01T00:00:00Z");
    assert_eq!(timestamp_to_rfc3339(MAX_DATED), "9999-12-31T23:59:59Z");
}
