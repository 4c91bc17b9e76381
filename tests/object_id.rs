use chrono::{TimeZone, Utc};
use database::object_id::{ObjectId, ObjectIdError};

#[test]
fn test_create_new_object_id() {
    let object = ObjectId::new();
    assert_eq!(object.to_bytes().len(), 12);
}

#[test]
fn test_from_bytes() {
    let bytes = [5u8; 12];
    let object = ObjectId::from_bytes(bytes);
    assert_eq!(object.to_bytes(), bytes);
}

#[test]
fn test_to_bytes() {
    let object = ObjectId::from_bytes([5u8; 12]);
    assert_eq!(object.to_bytes(), [5u8; 12])
}

#[test]
fn test_from_hex() {
    let hexstr = "0102030405060708090a0b0c";
    let object = ObjectId::from_hex(hexstr).unwrap();
    assert_eq!(object.to_bytes(), [1, 2, 3, 4, 5, 6, 7, 8, 9, 10, 11, 12]);
}

#[test]
fn test_to_hex() {
    let bytes = [1, 2, 3, 4, 5, 6, 7, 8, 9, 10, 11, 12];
    let object = ObjectId::from_bytes(bytes);
    assert_eq!(object.to_hex(), "0102030405060708090a0b0c");
}

#[test]
fn test_display_trait() {
    let bytes = [0xde, 0xad, 0xbe, 0xef, 0, 1, 2, 3, 4, 5, 6, 7];
    let object = ObjectId::from_bytes(bytes);
    let display = object.to_hex();
    assert_eq!(display, "deadbeef0001020304050607");
}

#[test]
fn test_timestamp() {
    let ts_bytes = 1735689600u32.to_be_bytes(); // 2025-01-01 00:00:00 UTC
    let mut bytes = [0u8; 12];
    bytes[0..4].copy_from_slice(&ts_bytes);
    let object = ObjectId::from_bytes(bytes);
    let dt = Utc.timestamp_opt(object.timestamp() as i64, 0).single().unwrap();
    assert_eq!(dt, Utc.with_ymd_and_hms(2025, 1, 1, 0, 0, 0).single().unwrap());
}

#[test]
fn from_hex_accepts_upper_case() {
    let object = ObjectId::from_hex("DEADBEEF0001020304050607").unwrap();
    assert_eq!(object.to_bytes(), [0xde, 0xad, 0xbe, 0xef, 0, 1, 2, 3, 4, 5, 6, 7]);
}

#[test]
fn from_hex_rejects_bad_input() {
    assert_eq!(ObjectId::from_hex("0102"), Err(ObjectIdError::InvalidHex));
    assert_eq!(ObjectId::from_hex("0102030405060708090a0b0"), Err(ObjectIdError::InvalidHex));
    assert_eq!(ObjectId::from_hex("0102030405060708090a0b0g"), Err(ObjectIdError::InvalidHex));
    assert_eq!(ObjectId::from_hex(""), Err(ObjectIdError::InvalidHex));
}

#[test]
fn hex_round_trip_on_values() {
    let samples = [[0u8; 12], [255u8; 12], [0x0f, 0xf0, 1, 2, 3, 4, 5, 6, 7, 8, 9, 0xab]];
    for bytes in samples {
        let object = ObjectId::from_bytes(bytes);
        let back = ObjectId::from_hex(&object.to_hex()).unwrap();
        assert_eq!(back.to_bytes(), bytes);
    }
}

#[test]
fn from_parts_is_big_endian_time_then_random() {
    let object = ObjectId::from_parts(0x01020304, [9, 8, 7, 6, 5, 4, 3, 2]);
    assert_eq!(object.to_bytes(), [1, 2, 3, 4, 9, 8, 7, 6, 5, 4, 3, 2]);
    assert_eq!(object.timestamp(), 0x01020304);
    assert_eq!(object.to_hex(), "010203040908070605040302");
}

#[test]
fn new_ids_carry_a_recent_timestamp() {
    let object = ObjectId::new();
    // 2020-01-01 as a lower bound for any clock this runs on
    assert!(object.timestamp() >= 1577836800);
}
