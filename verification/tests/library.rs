use std::io::Write;

use gtfsrealtime::check_types::{check_types, MessageType};
use gtfsrealtime::dedup::IdDeduplicator;
use gtfsrealtime::decode::decode_feed;
use gtfsrealtime::encode::encode_feed_message;
use gtfsrealtime::enums::{as_str_name_t, enum_to_list, get_or_none, type_path, ProtoEnum};
use gtfsrealtime::feed::{
    fixed_error_text, read_archive, read_local_feed, read_one_feed, read_zip_feeds, source_kind, ArchiveEntry,
    FeedError, SourceKind,
};
use gtfsrealtime::model::{FeedEntity, FeedMessage, VehiclePosition};
use gtfsrealtime::test_data::{test_data_alert_unwrapping, test_data_positions_all_values};
use gtfsrealtime::util::ensure_nonempty;
use gtfsrealtime::wire::{split_fields, ParseError, WireValue};

#[test]
fn ensure_nonempty_wraps_items() {
    let empty: Vec<u32> = vec![];
    assert_eq!(ensure_nonempty(empty), vec![None]);
    assert_eq!(ensure_nonempty(vec![1, 2]), vec![Some(1), Some(2)]);
}

#[test]
fn dedup_keeps_first_and_renames_repeats() {
    let mut d = IdDeduplicator::new();
    assert_eq!(d.deduplicate_id("a".to_string()), "a");
    assert_eq!(d.deduplicate_id("a".to_string()), "a_duplicated_1");
    assert_eq!(d.deduplicate_id("a".to_string()), "a_duplicated_2");
    assert_eq!(d.deduplicate_id("a_duplicated_1".to_string()), "a_duplicated_1_duplicated_1");
    assert_eq!(d.deduplicate_id("b".to_string()), "b");
}

#[test]
fn dedup_over_many_calls_hands_out_distinct_ids() {
    let mut d = IdDeduplicator::new();
    let ids = ["x", "x", "y", "x_duplicated_1", "x", "y"];
    let out: Vec<String> = ids.iter().map(|i| d.deduplicate_id(i.to_string())).collect();
    assert_eq!(out, vec!["x", "x_duplicated_1", "y", "x_duplicated_1_duplicated_1", "x_duplicated_2", "y_duplicated_1"]);
}

#[test]
fn fixed_error_texts() {
    assert_eq!(fixed_error_text(&FeedError::NotAFeed), Some("File is not a GTFS realtime feed"));
    assert_eq!(fixed_error_text(&FeedError::Truncated), Some("failed to fill whole buffer"));
    assert_eq!(fixed_error_text(&FeedError::Decompress("x".to_string())), None);
}

#[test]
fn check_types_reports_other_kinds() {
    let feed = read_one_feed(&test_data_positions_all_values()).ok().unwrap();
    assert_eq!(check_types(&feed, MessageType::Positions), vec![]);
    assert_eq!(check_types(&feed, MessageType::Alerts), vec![MessageType::Positions]);
    assert_eq!(MessageType::Updates.to_text(), "trip updates.");
}

#[test]
fn enum_names_and_levels() {
    let (levels, labels, path) = enum_to_list(ProtoEnum::SeverityLevel);
    assert_eq!(levels, vec![1, 2, 3, 4]);
    assert_eq!(labels, vec!["UNKNOWN_SEVERITY", "INFO", "WARNING", "SEVERE"]);
    assert_eq!(path, "gtfsrealtime::transit_realtime::alert::SeverityLevel");
    assert_eq!(type_path(ProtoEnum::Cause), "gtfsrealtime::transit_realtime::alert::Cause");
    assert_eq!(as_str_name_t(ProtoEnum::TripScheduleRelationship, 5), Some("REPLACEMENT"));
    assert_eq!(as_str_name_t(ProtoEnum::TripScheduleRelationship, 4), None);
    assert_eq!(as_str_name_t(ProtoEnum::Cause, 0), None);
    assert_eq!(get_or_none(ProtoEnum::VehicleStopStatus, 2), Some(2));
    assert_eq!(get_or_none(ProtoEnum::VehicleStopStatus, 3), None);
}

#[test]
fn split_fields_reads_varint_and_bytes() {
    // field 1 varint 150, field 2 bytes "hi"
    let data = [0x08, 0x96, 0x01, 0x12, 0x02, b'h', b'i'];
    let fs = split_fields(&data, 0, data.len(), 100).ok().unwrap();
    assert_eq!(fs.len(), 2);
    assert_eq!(fs[0].tag, 1);
    assert_eq!(fs[0].value, WireValue::Varint(150));
    assert_eq!(fs[1].tag, 2);
    assert_eq!(fs[1].value, WireValue::Bytes(5, 7));
}

#[test]
fn split_fields_refuses_overlong_length() {
    let data = [0x12, 0x05, b'h'];
    let r = split_fields(&data, 0, data.len(), 100);
    assert!(matches!(r, Err(ParseError::BufferUnderflow)));
}

#[test]
fn read_one_feed_errors() {
    assert!(matches!(read_one_feed(&[1, 2]), Err(FeedError::NotAFeed)));
    assert!(matches!(read_one_feed(&[0xff, 0xff, 0xff, 0xff]), Err(FeedError::Parse(_))));
    assert!(matches!(read_one_feed(&[0x1f, 0x8b, 0x08, 0x00]), Err(FeedError::Decompress(_))));
    assert!(matches!(read_one_feed(&[0x42, 0x5a, 0x68, 0x00]), Err(FeedError::Decompress(_))));
}

#[test]
fn read_one_feed_gunzips() {
    let raw = test_data_positions_all_values();
    let mut enc = flate2::write::GzEncoder::new(Vec::new(), flate2::Compression::default());
    enc.write_all(&raw).unwrap();
    let gz = enc.finish().unwrap();
    let feed = read_one_feed(&gz).ok().unwrap();
    assert_eq!(feed.entity.len(), 3);
}

#[test]
fn read_one_feed_bunzips() {
    let raw = test_data_positions_all_values();
    let mut enc = bzip2::write::BzEncoder::new(Vec::new(), bzip2::Compression::default());
    enc.write_all(&raw).unwrap();
    let bz = enc.finish().unwrap();
    let feed = read_one_feed(&bz).ok().unwrap();
    assert_eq!(feed.entity.len(), 3);
}

#[test]
fn source_kind_by_header() {
    assert_eq!(source_kind(b"PK\x03\x04rest").ok(), Some(SourceKind::Zip));
    assert_eq!(source_kind(b"\x1f\x8b\x08\x00").ok(), Some(SourceKind::Single));
    assert!(matches!(source_kind(b"PK"), Err(FeedError::Truncated)));
}

#[test]
fn read_archive_skips_metadata_and_reports_failures() {
    let entries = vec![
        ArchiveEntry { name: "a.pb".to_string(), is_file: true, contents: test_data_positions_all_values() },
        ArchiveEntry { name: "dir/".to_string(), is_file: false, contents: vec![] },
        ArchiveEntry { name: "x/.DS_Store".to_string(), is_file: true, contents: vec![0, 1, 2, 3] },
        ArchiveEntry { name: "bad.pb".to_string(), is_file: true, contents: vec![0xff, 0xff, 0xff] },
        ArchiveEntry { name: "b.pb".to_string(), is_file: true, contents: test_data_alert_unwrapping() },
    ];
    let (feeds, skipped) = read_archive(&entries);
    assert_eq!(feeds.len(), 2);
    assert_eq!(feeds[0].entity.len(), 3);
    assert_eq!(feeds[1].entity.len(), 5);
    assert_eq!(skipped.len(), 1);
    assert_eq!(skipped[0].name, "bad.pb");
}

#[test]
fn encode_then_decode_gives_the_message_back() {
    let mut m = FeedMessage::new();
    m.header.gtfs_realtime_version = "2.0".to_string();
    m.header.timestamp = Some(300);
    let mut e = FeedEntity::new();
    e.id = "x".to_string();
    let mut v = VehiclePosition::new();
    v.stop_id = Some("s".to_string());
    v.current_stop_sequence = Some(7);
    v.congestion_level = Some(-1);
    e.vehicle = Some(v);
    m.entity.push(e);
    let mut buf = Vec::new();
    encode_feed_message(&m, &mut buf);
    let back = decode_feed(&buf).ok().unwrap();
    assert_eq!(back.header.gtfs_realtime_version, "2.0");
    assert_eq!(back.header.timestamp, Some(300));
    assert_eq!(back.header.incrementality, None);
    assert_eq!(back.entity.len(), 1);
    assert_eq!(back.entity[0].id, "x");
    let bv = back.entity[0].vehicle.as_ref().unwrap();
    assert_eq!(bv.stop_id.as_deref(), Some("s"));
    assert_eq!(bv.current_stop_sequence, Some(7));
    assert_eq!(bv.congestion_level, Some(-1));
    assert!(bv.trip.is_none());
}

#[test]
fn truncated_feed_reads_entities_before_the_cut() {
    let full = test_data_alert_unwrapping();
    let mut m = read_one_feed(&full).ok().unwrap();
    m.entity.truncate(2);
    let mut cut = Vec::new();
    encode_feed_message(&m, &mut cut);
    assert_eq!(&full[..cut.len()], &cut[..]);
    let back = decode_feed(&full[..cut.len()]).ok().unwrap();
    assert_eq!(back.entity.len(), 2);
    assert_eq!(back.entity[1].id, "2");
}

#[test]
fn encode_writes_known_bytes() {
    let mut m = FeedMessage::new();
    m.header.gtfs_realtime_version = "2.0".to_string();
    m.header.incrementality = Some(0);
    m.header.timestamp = Some(300);
    let mut buf = Vec::new();
    encode_feed_message(&m, &mut buf);
    assert_eq!(
        buf,
        vec![0x0a, 0x0a, 0x0a, 0x03, b'2', b'.', b'0', 0x10, 0x00, 0x18, 0xac, 0x02]
    );
}

fn sample_zip() -> Vec<u8> {
    let mut w = zip::ZipWriter::new(std::io::Cursor::new(Vec::new()));
    let opts = zip::write::SimpleFileOptions::default().compression_method(zip::CompressionMethod::Stored);
    w.start_file("a.pb", opts).unwrap();
    w.write_all(&test_data_positions_all_values()).unwrap();
    w.add_directory("dir/", opts).unwrap();
    w.start_file("x/.DS_Store", opts).unwrap();
    w.write_all(&[0, 1, 2, 3]).unwrap();
    w.start_file("bad.pb", opts).unwrap();
    w.write_all(&[0xff, 0xff, 0xff]).unwrap();
    w.start_file("b.pb", opts).unwrap();
    w.write_all(&test_data_alert_unwrapping()).unwrap();
    w.finish().unwrap().into_inner()
}

#[test]
fn read_zip_feeds_reads_every_file_of_the_archive() {
    let (feeds, skipped) = read_zip_feeds(&sample_zip()).ok().unwrap();
    assert_eq!(feeds.len(), 2);
    assert_eq!(feeds[0].entity.len(), 3);
    assert_eq!(feeds[1].entity.len(), 5);
    assert_eq!(skipped.len(), 1);
    assert_eq!(skipped[0].name, "bad.pb");
    assert!(matches!(skipped[0].error, FeedError::Parse(_)));
}

#[test]
fn read_zip_feeds_refuses_a_broken_archive() {
    assert!(matches!(read_zip_feeds(b"PK\x03\x04 not an archive"), Err(FeedError::Archive(_))));
}

#[test]
fn read_local_feed_dispatches_on_the_header() {
    let (feeds, skipped) = read_local_feed(&sample_zip()).ok().unwrap();
    assert_eq!(feeds.len(), 2);
    assert_eq!(skipped.len(), 1);
    let (feeds, skipped) = read_local_feed(&test_data_positions_all_values()).ok().unwrap();
    assert_eq!(feeds.len(), 1);
    assert_eq!(feeds[0].entity.len(), 3);
    assert!(skipped.is_empty());
    assert!(matches!(read_local_feed(&[1, 2, 3]), Err(FeedError::Truncated)));
    assert!(matches!(read_local_feed(&[0xff, 0xff, 0xff, 0xff]), Err(FeedError::Parse(_))));
}
