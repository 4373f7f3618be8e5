use cat48::catalog::{
    catalog_entry, payload_len, Shape, AIRCRAFT_ADDRESS, AIRCRAFT_IDENTIFICATION,
    CALCULATED_TRACK_VELOCITY, COMMUNICATIONS_CAPABILITY_FLIGHT_STATUS, DATA_SOURCE_IDENTIFIER,
    MODE_S_MB_DATA, NUM_FIELDS, RADAR_PLOT_CHARACTERISTICS, TARGET_REPORT_DESCRIPTOR,
    TIME_OF_DAY, TRACK_NUMBER, TRACK_STATUS,
};
use cat48::fspec::{present, read_fspec, CodecError};
use cat48::record::Cat48;

fn only(field: usize, payload: Vec<u8>) -> Cat48 {
    let mut r = Cat48::new();
    r.set(field, Some(payload));
    r
}

fn present_fields(r: &Cat48) -> Vec<usize> {
    (0..NUM_FIELDS).filter(|&i| r.get(i).is_some()).collect()
}

#[test]
fn example_two_octet_fspec_announces_two_fields() {
    let fspec = [0b1000_0001u8, 0b1000_0000];
    for i in 0..NUM_FIELDS {
        let e = catalog_entry(i);
        let expected = i == DATA_SOURCE_IDENTIFIER || i == AIRCRAFT_ADDRESS;
        assert_eq!(present(&fspec, e.mask, e.byte_index), expected, "field {}", i);
    }
    let input = [0b1000_0001u8, 0b1000_0000, 0x01, 0x02, 0xAA, 0xBB, 0xCC];
    let (r, used) = Cat48::decode(&input).unwrap();
    assert_eq!(used, 7);
    assert_eq!(present_fields(&r), vec![DATA_SOURCE_IDENTIFIER, AIRCRAFT_ADDRESS]);
    assert_eq!(r.get(DATA_SOURCE_IDENTIFIER), Some(&vec![0x01, 0x02]));
    assert_eq!(r.get(AIRCRAFT_ADDRESS), Some(&vec![0xAA, 0xBB, 0xCC]));
}

#[test]
fn example_time_of_day_alone_takes_one_octet() {
    let r = only(TIME_OF_DAY, vec![0x12, 0x34, 0x56]);
    assert_eq!(r.update_fspec(), vec![0b0100_0000]);
    assert_eq!(r.encode().unwrap(), vec![0b0100_0000, 0x12, 0x34, 0x56]);
}

#[test]
fn example_third_octet_field_carries_continuation_chain() {
    let r = only(COMMUNICATIONS_CAPABILITY_FLIGHT_STATUS, vec![0x0A, 0x0B]);
    assert_eq!(r.update_fspec(), vec![0x01, 0x01, 0b0000_0010]);
    assert_eq!(r.encode().unwrap(), vec![0x01, 0x01, 0b0000_0010, 0x0A, 0x0B]);
}

#[test]
fn example_missing_continuation_octet_is_truncated() {
    assert_eq!(Cat48::decode(&[0b0000_0001]), Err(CodecError::TruncatedInput));
    assert_eq!(read_fspec(&[0b1000_0001]), Err(CodecError::TruncatedInput));
}

#[test]
fn round_trip_of_many_fields() {
    let mut r = Cat48::new();
    r.set(DATA_SOURCE_IDENTIFIER, Some(vec![0x19, 0xC9]));
    r.set(TIME_OF_DAY, Some(vec![0x35, 0x6D, 0x4D]));
    r.set(TARGET_REPORT_DESCRIPTOR, Some(vec![0xA1, 0x40]));
    r.set(RADAR_PLOT_CHARACTERISTICS, Some(vec![0x60, 0x01, 0x02]));
    r.set(AIRCRAFT_IDENTIFICATION, Some(vec![1, 2, 3, 4, 5, 6]));
    r.set(MODE_S_MB_DATA, Some(vec![0x01, 1, 2, 3, 4, 5, 6, 7, 8]));
    r.set(TRACK_STATUS, Some(vec![0x41, 0x00]));
    r.set(COMMUNICATIONS_CAPABILITY_FLIGHT_STATUS, Some(vec![0x20, 0xF5]));
    let bytes = r.encode().unwrap();
    assert_eq!(&bytes[..3], &[0xE3, 0x63, 0x02]);
    let (back, used) = Cat48::decode(&bytes).unwrap();
    assert_eq!(used, bytes.len());
    assert_eq!(back, r);
}

#[test]
fn decode_then_encode_is_identical() {
    let input = [0xF0u8, 0x11, 0x22, 0x33, 0x44, 0x55, 0x01, 0x02, 0x03, 0x04, 0x05, 0x06];
    let (r, used) = Cat48::decode(&input).unwrap();
    assert_eq!(used, input.len());
    assert_eq!(r.encode().unwrap(), input.to_vec());
}

#[test]
fn empty_record_encodes_to_single_zero_octet() {
    let r = Cat48::new();
    assert_eq!(r.encode().unwrap(), vec![0x00]);
    let (back, used) = Cat48::decode(&[0x00]).unwrap();
    assert_eq!(used, 1);
    assert_eq!(back, r);
}

#[test]
fn trailing_absent_octets_are_trimmed() {
    let input = [0x81u8, 0x01, 0x00, 0x01, 0x02];
    let (r, used) = Cat48::decode(&input).unwrap();
    assert_eq!(used, 5);
    assert_eq!(r.encode().unwrap(), vec![0x80, 0x01, 0x02]);
}

#[test]
fn continuation_set_on_all_but_last() {
    let mut r = Cat48::new();
    r.set(DATA_SOURCE_IDENTIFIER, Some(vec![1, 2]));
    r.set(TRACK_NUMBER, Some(vec![3, 4]));
    r.set(COMMUNICATIONS_CAPABILITY_FLIGHT_STATUS, Some(vec![5, 6]));
    let f = r.update_fspec();
    assert_eq!(f, vec![0x81, 0x11, 0x02]);
    for b in &f[..f.len() - 1] {
        assert_eq!(b & 1, 1);
    }
    assert_eq!(f[f.len() - 1] & 1, 0);
}

#[test]
fn oracle_is_false_past_the_fspec() {
    let fspec = [0xFFu8];
    for mask in 0..=255u8 {
        assert!(!present(&fspec, mask, 1));
        assert!(!present(&fspec, mask, 7));
    }
    assert!(!present(&[], 0xFF, 0));
    assert!(present(&fspec, 0x02, 0));
}

#[test]
fn over_long_fspec_chain_is_malformed() {
    let input = [0x01u8, 0x01, 0x01, 0x01, 0x00];
    assert_eq!(read_fspec(&input), Err(CodecError::MalformedFspec));
    assert_eq!(Cat48::decode(&input), Err(CodecError::MalformedFspec));
    assert_eq!(read_fspec(&[0x01, 0x01, 0x01, 0x00]), Ok(vec![0x01, 0x01, 0x01, 0x00]));
}

#[test]
fn truncated_payload_is_reported() {
    assert_eq!(Cat48::decode(&[0x40, 0x12, 0x34]), Err(CodecError::TruncatedInput));
    assert_eq!(Cat48::decode(&[0x20, 0x01]), Err(CodecError::TruncatedInput));
}

#[test]
fn over_long_extended_payload_fails_its_field() {
    assert_eq!(
        Cat48::decode(&[0x20, 0x01, 0x01, 0x01, 0x00]),
        Err(CodecError::FieldDecodeError { field: TARGET_REPORT_DESCRIPTOR })
    );
    assert_eq!(
        Cat48::decode(&[0x02, 0x01]),
        Err(CodecError::FieldDecodeError { field: RADAR_PLOT_CHARACTERISTICS })
    );
}

#[test]
fn malformed_payload_fails_encoding() {
    let r = only(AIRCRAFT_ADDRESS, vec![1, 2]);
    assert_eq!(r.encode(), Err(CodecError::FieldEncodeError { field: AIRCRAFT_ADDRESS }));
    let mut r = only(TIME_OF_DAY, vec![1, 2, 3]);
    r.set(CALCULATED_TRACK_VELOCITY, Some(vec![1, 2, 3, 4, 5]));
    r.set(TRACK_STATUS, Some(vec![0x01]));
    assert_eq!(r.encode(), Err(CodecError::FieldEncodeError { field: CALCULATED_TRACK_VELOCITY }));
}

#[test]
fn payload_shapes_are_framed() {
    let bytes = [0xFFu8, 0x03, 0x80, 0x00, 0x07];
    assert_eq!(payload_len(Shape::Fixed(2), &bytes, 1, 0), Ok(2));
    assert_eq!(payload_len(Shape::Fixed(9), &bytes, 0, 0), Err(CodecError::TruncatedInput));
    assert_eq!(payload_len(Shape::Extended(3), &bytes, 1, 2), Ok(2));
    assert_eq!(payload_len(Shape::Repetitive(2), &[0x02, 1, 2, 3, 4, 9], 0, 9), Ok(5));
    assert_eq!(payload_len(Shape::Repetitive(2), &[0x03, 1, 2], 0, 9), Err(CodecError::TruncatedInput));
    assert_eq!(payload_len(Shape::Compound, &[0xC0, 1, 2, 3], 0, 6), Ok(3));
    assert_eq!(payload_len(Shape::Compound, &[0x00], 0, 6), Ok(1));
    assert_eq!(
        payload_len(Shape::Compound, &[0x81, 1], 0, 6),
        Err(CodecError::FieldDecodeError { field: 6 })
    );
}

#[test]
fn decode_stops_at_record_end() {
    let input = [0x10u8, 1, 2, 3, 4, 0xEE, 0xEE];
    let (r, used) = Cat48::decode(&input).unwrap();
    assert_eq!(used, 5);
    assert_eq!(r.get(3), Some(&vec![1, 2, 3, 4]));
}

#[test]
fn setting_none_clears_a_field() {
    let mut r = only(TIME_OF_DAY, vec![1, 2, 3]);
    r.set(TIME_OF_DAY, None);
    assert_eq!(r.get(TIME_OF_DAY), None);
    assert_eq!(r, Cat48::new());
}
