use gtfsrealtime::decode::decode_feed;
use gtfsrealtime::encode::encode_feed_message;
use gtfsrealtime::raw::RawMessage;
use gtfsrealtime::model::{
    FeedEntity, FeedMessage, Modification, ReplacementStop, SelectedTrips, TripModifications,
};
use gtfsrealtime::trip_modifications::{
    read_gtfsrt_trip_modifications_internal, TripModificationsWarning,
};
use gtfsrealtime::wire::ParseError;

#[test]
fn decode_refuses_field_number_zero() {
    assert!(matches!(decode_feed(&[0x00, 0x01]), Err(ParseError::Wire(_))));
}

#[test]
fn decode_refuses_stray_end_group() {
    assert!(matches!(decode_feed(&[0x0c]), Err(ParseError::UnexpectedEndGroupTag)));
}

#[test]
fn decode_refuses_deep_groups() {
    let mut data = vec![0x0bu8; 101];
    data.extend(vec![0x0cu8; 101]);
    assert!(matches!(decode_feed(&data), Err(ParseError::RecursionLimitReached)));
}

#[test]
fn decode_skips_shallow_groups() {
    // an unknown group field 9 holding a varint, then nothing else
    let data = [0x4b, 0x08, 0x01, 0x4c];
    let m = decode_feed(&data).ok().unwrap();
    assert_eq!(m.entity.len(), 0);
}

#[test]
fn decode_refuses_header_as_varint() {
    assert!(matches!(decode_feed(&[0x08, 0x01]), Err(ParseError::UnexpectedWireType)));
}

#[test]
fn decode_refuses_invalid_utf8() {
    // header whose version holds the byte ff
    let data = [0x0a, 0x03, 0x0a, 0x01, 0xff];
    assert!(matches!(decode_feed(&data), Err(ParseError::InvalidString)));
}

#[test]
fn decode_keeps_last_scalar_and_merges_messages() {
    // header { version "1" }, header { timestamp 5 }, then version again as "2"
    let data = [0x0a, 0x03, 0x0a, 0x01, b'1', 0x0a, 0x02, 0x18, 0x05, 0x0a, 0x03, 0x0a, 0x01, b'2'];
    let m = decode_feed(&data).ok().unwrap();
    assert_eq!(m.header.gtfs_realtime_version, "2");
    assert_eq!(m.header.timestamp, Some(5));
}

fn stop(id: &str) -> ReplacementStop {
    let mut r = ReplacementStop::new();
    r.stop_id = Some(id.to_string());
    r
}

fn modifications(service_dates: Vec<&str>) -> TripModifications {
    let mut st = SelectedTrips::new();
    st.trip_ids = vec!["t1".to_string(), "t2".to_string()];
    st.shape_id = Some("s".to_string());
    let mut md = Modification::new();
    md.replacement_stops = vec![stop("r1"), stop("r2")];
    let mut tm = TripModifications::new();
    tm.selected_trips = vec![st];
    tm.service_dates = service_dates.into_iter().map(|d| d.to_string()).collect();
    tm.modifications = vec![md];
    tm
}

#[test]
fn trip_modifications_rows_and_warnings() {
    let mut feed = FeedMessage::new();
    feed.header.timestamp = Some(42);
    let mut e1 = FeedEntity::new();
    e1.id = "tm".to_string();
    e1.trip_modifications = Some(modifications(vec!["20260101"]));
    let mut e2 = FeedEntity::new();
    e2.id = "tm".to_string();
    e2.trip_modifications = Some(modifications(vec![]));
    feed.entity = vec![e1, e2];
    let (rows, warnings) = read_gtfsrt_trip_modifications_internal(&vec![feed]);
    assert_eq!(rows.len(), 4);
    assert!(rows.iter().all(|r| r.id == "tm" && r.service_date == "20260101"));
    assert!(rows.iter().all(|r| r.file_timestamp == Some(42) && r.start_time.is_none()));
    assert_eq!(rows[0].trip_id, "t1");
    assert_eq!(rows[0].replacement_stop_id.as_deref(), Some("r1"));
    assert_eq!(rows[1].replacement_stop_id.as_deref(), Some("r2"));
    assert_eq!(rows[2].trip_id, "t2");
    assert_eq!(warnings.len(), 4);
    assert!(matches!(&warnings[0], TripModificationsWarning::Found { id } if id == "tm"));
    assert!(matches!(&warnings[1], TripModificationsWarning::DuplicateId { id, replacement }
        if id == "tm" && replacement == "tm_duplicated_1"));
    assert!(matches!(&warnings[2], TripModificationsWarning::Found { id } if id == "tm_duplicated_1"));
    assert!(matches!(&warnings[3], TripModificationsWarning::NoServiceDates { id } if id == "tm_duplicated_1"));
}

#[test]
fn raw_parts_come_back_as_written() {
    let mut feed = FeedMessage::new();
    feed.header.gtfs_realtime_version = "2.0".to_string();
    let mut e = FeedEntity::new();
    e.id = "shape".to_string();
    // a shape whose field 1 (its id) is "s1"
    e.shape = Some(RawMessage { bytes: vec![0x0a, 0x02, b's', b'1'] });
    feed.entity.push(e);
    let mut buf = Vec::new();
    encode_feed_message(&feed, &mut buf);
    let back = decode_feed(&buf).ok().unwrap();
    assert_eq!(back.entity[0].shape.as_ref().unwrap().bytes, vec![0x0a, 0x02, b's', b'1']);
}

#[test]
fn raw_parts_are_checked() {
    let mut feed = FeedMessage::new();
    let mut e = FeedEntity::new();
    e.id = "shape".to_string();
    // field 1 of a shape is a string: a varint there is refused
    e.shape = Some(RawMessage { bytes: vec![0x08, 0x01] });
    feed.entity.push(e);
    let mut buf = Vec::new();
    encode_feed_message(&feed, &mut buf);
    assert!(matches!(decode_feed(&buf), Err(ParseError::UnexpectedWireType)));
}
