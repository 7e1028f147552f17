//! Tests of the record decoder: framing, field tags, defaults, skipping,
//! error cases, and agreement with an independent protobuf encoder.

use profiling_log::decode::{decode_events, decode_record, DecodeError};
use profiling_log::events::ProfileEvent;

/// Appends a base-128 variable-width integer.
fn put_varint(mut v: u64, out: &mut Vec<u8>) {
    loop {
        let byte = (v & 0x7f) as u8;
        v >>= 7;
        if v == 0 {
            out.push(byte);
            return;
        }
        out.push(byte | 0x80);
    }
}

/// Appends one length-delimited record with the given body.
fn put_record(body: &[u8], out: &mut Vec<u8>) {
    put_varint(body.len() as u64, out);
    out.extend_from_slice(body);
}

/// A record body with the four known fields.
fn event_body(ts: i64, pc: i32, kind: i32, extra: i32) -> Vec<u8> {
    let mut body = Vec::new();
    put_varint(1 << 3, &mut body);
    put_varint(ts as u64, &mut body);
    put_varint(2 << 3, &mut body);
    put_varint(pc as i64 as u64, &mut body);
    put_varint(3 << 3, &mut body);
    put_varint(kind as i64 as u64, &mut body);
    put_varint(4 << 3, &mut body);
    put_varint(extra as i64 as u64, &mut body);
    body
}

#[test]
fn empty_buffer_is_no_events() {
    let r = decode_events(&Vec::new()).unwrap();
    assert_eq!(r.len(), 0);
}

#[test]
fn one_record_with_all_fields() {
    let mut buf = Vec::new();
    put_record(&event_body(5, 20, 2, 7), &mut buf);
    let r = decode_events(&buf).unwrap();
    assert_eq!(r.len(), 1);
    assert_eq!(r[0].timestamp, Some(5));
    assert_eq!(r[0].pc, Some(20));
    assert_eq!(r[0].event_type, Some(2));
    assert_eq!(r[0].extra_data, Some(7));
}

#[test]
fn empty_record_means_all_fields_absent() {
    let mut buf = Vec::new();
    put_record(&[], &mut buf);
    let r = decode_events(&buf).unwrap();
    assert_eq!(r.len(), 1);
    assert_eq!(
        r[0],
        ProfileEvent { timestamp: None, pc: None, event_type: None, extra_data: None }
    );
}

#[test]
fn negative_values_round_trip() {
    let mut buf = Vec::new();
    put_record(&event_body(-5, -3, 3, -1), &mut buf);
    let r = decode_events(&buf).unwrap();
    assert_eq!(r[0].timestamp, Some(-5));
    assert_eq!(r[0].pc, Some(-3));
    assert_eq!(r[0].extra_data, Some(-1));
}

#[test]
fn unknown_tags_are_skipped() {
    let mut body = Vec::new();
    // tag 9, varint
    put_varint(9 << 3, &mut body);
    put_varint(12345, &mut body);
    // tag 10, 64-bit
    put_varint((10 << 3) | 1, &mut body);
    body.extend_from_slice(&[1, 2, 3, 4, 5, 6, 7, 8]);
    // tag 11, length-delimited
    put_varint((11 << 3) | 2, &mut body);
    put_varint(3, &mut body);
    body.extend_from_slice(&[9, 9, 9]);
    // tag 12, 32-bit
    put_varint((12 << 3) | 5, &mut body);
    body.extend_from_slice(&[1, 2, 3, 4]);
    // then a known field
    put_varint(1 << 3, &mut body);
    put_varint(42, &mut body);
    let mut buf = Vec::new();
    put_record(&body, &mut buf);
    let r = decode_events(&buf).unwrap();
    assert_eq!(r[0].timestamp, Some(42));
    assert_eq!(r[0].pc, None);
}

#[test]
fn later_field_occurrence_wins() {
    let mut body = Vec::new();
    put_varint(1 << 3, &mut body);
    put_varint(1, &mut body);
    put_varint(1 << 3, &mut body);
    put_varint(2, &mut body);
    let mut buf = Vec::new();
    put_record(&body, &mut buf);
    let r = decode_events(&buf).unwrap();
    assert_eq!(r[0].timestamp, Some(2));
}

#[test]
fn several_records_in_order() {
    let mut buf = Vec::new();
    put_record(&event_body(0, 10, 2, 0), &mut buf);
    put_record(&event_body(5, 20, 2, 0), &mut buf);
    put_record(&event_body(8, 20, 3, 0), &mut buf);
    let r = decode_events(&buf).unwrap();
    assert_eq!(r.len(), 3);
    assert_eq!(r[0].pc, Some(10));
    assert_eq!(r[2].event_type, Some(3));
}

#[test]
fn cursor_advances_exactly_past_one_record() {
    let mut buf = Vec::new();
    put_record(&event_body(1, 2, 2, 0), &mut buf);
    let first_len = buf.len();
    put_record(&event_body(3, 4, 3, 0), &mut buf);
    let (ev, next) = decode_record(&buf, 0).unwrap();
    assert_eq!(ev.timestamp, Some(1));
    assert_eq!(next, first_len);
    let (ev2, next2) = decode_record(&buf, next).unwrap();
    assert_eq!(ev2.timestamp, Some(3));
    assert_eq!(next2, buf.len());
}

#[test]
fn declared_length_past_end_is_eof() {
    let buf = vec![5u8, 1, 2];
    assert_eq!(decode_events(&buf), Err(DecodeError::UnexpectedEof));
}

#[test]
fn truncated_length_delimiter_is_malformed() {
    let buf = vec![0x80u8];
    assert_eq!(decode_events(&buf), Err(DecodeError::Malformed));
}

#[test]
fn overlong_varint_is_malformed() {
    // ten continuation bytes can never terminate within the allowed width
    let buf = vec![0x80u8, 0x80, 0x80, 0x80, 0x80, 0x80, 0x80, 0x80, 0x80, 0x80, 0x01];
    assert_eq!(decode_events(&buf), Err(DecodeError::Malformed));
}

#[test]
fn tenth_varint_byte_above_one_is_malformed() {
    let mut buf = vec![0x80u8; 9];
    buf.push(0x02);
    assert_eq!(decode_events(&buf), Err(DecodeError::Malformed));
}

#[test]
fn group_wire_type_is_malformed() {
    let mut buf = Vec::new();
    put_record(&[0x0B], &mut buf); // tag 1, start-group
    assert_eq!(decode_events(&buf), Err(DecodeError::Malformed));
}

#[test]
fn known_tag_with_wrong_wire_type_is_malformed() {
    let mut buf = Vec::new();
    put_record(&[0x0D, 1, 2, 3, 4], &mut buf); // tag 1, 32-bit
    assert_eq!(decode_events(&buf), Err(DecodeError::Malformed));
}

#[test]
fn zero_tag_is_malformed() {
    let mut buf = Vec::new();
    put_record(&[0x00], &mut buf);
    assert_eq!(decode_events(&buf), Err(DecodeError::Malformed));
}

#[test]
fn truncated_field_value_is_malformed() {
    let mut buf = Vec::new();
    put_record(&[0x08], &mut buf); // tag 1 but no value
    assert_eq!(decode_events(&buf), Err(DecodeError::Malformed));
}

#[test]
fn agrees_with_independent_protobuf_encoder() {
    let mut body = Vec::new();
    prost::encoding::int64::encode(1, &-123456789i64, &mut body);
    prost::encoding::int32::encode(2, &0x10000005i32, &mut body);
    prost::encoding::int32::encode(3, &2i32, &mut body);
    prost::encoding::int32::encode(4, &-7i32, &mut body);
    let mut buf = Vec::new();
    prost::encode_length_delimiter(body.len(), &mut buf).unwrap();
    buf.extend_from_slice(&body);

    let mut body2 = Vec::new();
    prost::encoding::int64::encode(1, &42i64, &mut body2);
    prost::encoding::int32::encode(3, &3i32, &mut body2);
    let mut buf2 = buf.clone();
    prost::encode_length_delimiter(body2.len(), &mut buf2).unwrap();
    buf2.extend_from_slice(&body2);

    let r = decode_events(&buf2).unwrap();
    assert_eq!(r.len(), 2);
    assert_eq!(r[0].timestamp, Some(-123456789));
    assert_eq!(r[0].pc, Some(0x10000005));
    assert_eq!(r[0].event_type, Some(2));
    assert_eq!(r[0].extra_data, Some(-7));
    assert_eq!(r[1].timestamp, Some(42));
    assert_eq!(r[1].event_type, Some(3));
    assert_eq!(r[1].pc, None);
}
