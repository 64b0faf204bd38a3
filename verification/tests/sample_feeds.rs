use gtfsrealtime::alert::read_gtfsrt_alerts_internal;
use gtfsrealtime::feed::read_one_feed;
use gtfsrealtime::model::{Alert, FeedEntity, FeedMessage, StopTimeUpdate, TripUpdate};
use gtfsrealtime::test_data::{
    test_data_alert_unwrapping, test_data_differential_feed, test_data_duplicate_ids_positions,
    test_data_enum_roundtrip_alerts, test_data_enum_roundtrip_positions,
    test_data_enum_roundtrip_updates, test_data_invalid_enum_positions,
    test_data_positions_all_values, test_data_update_unwrapping,
};
use gtfsrealtime::trip_update::read_gtfsrt_trip_updates_internal;
use gtfsrealtime::vehicle_position::read_gtfsrt_positions;

fn read(bytes: &[u8]) -> FeedMessage {
    match read_one_feed(bytes) {
        Ok(m) => m,
        Err(_) => panic!("the sample feed does not read back"),
    }
}

fn count_ids<'a>(ids: impl Iterator<Item = &'a String>, id: &str) -> usize {
    ids.filter(|x| x.as_str() == id).count()
}

#[test]
fn alert_unwrapping_rows_multiply() {
    let feed = read(&test_data_alert_unwrapping());
    assert_eq!(feed.entity.len(), 5);
    let (rows, replaced) = read_gtfsrt_alerts_internal(&vec![feed]);
    assert!(replaced.is_empty());
    assert_eq!(count_ids(rows.iter().map(|r| &r.id), "1"), 8);
    assert_eq!(count_ids(rows.iter().map(|r| &r.id), "2"), 8);
    assert_eq!(count_ids(rows.iter().map(|r| &r.id), "3"), 4);
    assert_eq!(count_ids(rows.iter().map(|r| &r.id), "4"), 1);
    assert_eq!(count_ids(rows.iter().map(|r| &r.id), "5"), 1);
    assert_eq!(rows.len(), 22);
    assert!(rows.iter().filter(|r| r.id == "1").all(|r| r.feed_index == 0));
    assert!(rows.iter().filter(|r| r.id == "3").all(|r| r.feed_index == 2));
    assert!(rows.iter().filter(|r| r.id == "5").all(|r| r.feed_index == 4));
}

#[test]
fn update_unwrapping_rows() {
    let feed = read(&test_data_update_unwrapping());
    assert_eq!(feed.entity.len(), 3);
    let (rows, replaced) = read_gtfsrt_trip_updates_internal(&vec![feed]);
    assert_eq!(rows.len(), 4);
    assert!(replaced.is_empty());
    for r in &rows {
        assert_eq!(r.id, format!("{}", r.feed_index + 1));
    }
}

#[test]
fn positions_all_values_rows() {
    let feed = read(&test_data_positions_all_values());
    let (rows, replaced) = read_gtfsrt_positions(&vec![feed]);
    assert_eq!(rows.len(), 3);
    assert!(replaced.is_empty());
    let r = &rows[0];
    assert_eq!(r.id, "1");
    assert_eq!(r.trip_id.as_deref(), Some("trip"));
    assert_eq!(r.route_id.as_deref(), Some("route"));
    assert_eq!(r.direction_id, Some(1));
    assert_eq!(r.start_time.as_deref(), Some("07:00:00"));
    assert_eq!(r.start_date.as_deref(), Some("20260401"));
    assert_eq!(r.schedule_relationship, Some(1));
    assert_eq!(r.stop_id.as_deref(), Some("stop"));
    assert_eq!(r.current_stop_sequence, Some(10));
    assert_eq!(r.timestamp, Some(1775076484));
    assert_eq!(r.current_status, Some(1));
    assert_eq!(r.congestion_level, Some(4));
    assert_eq!(r.occupancy_status, Some(4));
    assert_eq!(r.occupancy_percentage, Some(15));
    assert_eq!(r.vehicle_id.as_deref(), Some("42"));
    assert_eq!(r.vehicle_label.as_deref(), Some("label"));
    assert_eq!(r.vehicle_license_plate.as_deref(), Some("LIC-4242"));
    assert_eq!(r.vehicle_wheelchair_accessible, Some(2));
    assert_eq!(r.latitude, Some(37.363f32.to_bits()));
    assert_eq!(r.longitude, Some((-122.123f32).to_bits()));
    assert_eq!(r.bearing, Some(78.0f32.to_bits()));
    assert_eq!(r.odometer, Some(8675809.0f64.to_bits()));
    assert_eq!(r.speed, Some(45.0f32.to_bits()));
    let r = &rows[1];
    assert_eq!(r.latitude, Some(37.363f32.to_bits()));
    assert_eq!(r.trip_id, None);
    assert_eq!(r.bearing, None);
    assert_eq!(r.vehicle_id, None);
    let r = &rows[2];
    assert_eq!(r.id, "3");
    assert_eq!(r.latitude, None);
    assert_eq!(r.trip_id, None);
    assert_eq!(r.timestamp, None);
}

#[test]
fn duplicate_position_ids_are_replaced() {
    let feed = read(&test_data_duplicate_ids_positions());
    let (rows, replaced) = read_gtfsrt_positions(&vec![feed]);
    let x = "\")); stop(\"identifier with r code executed!\")#";
    assert_eq!(rows.len(), 3);
    assert_eq!(rows[0].id, x);
    assert_eq!(rows[1].id, format!("{}_duplicated_1", x));
    assert_eq!(rows[2].id, format!("{}_duplicated_2", x));
    assert_eq!(replaced.len(), 2);
    assert_eq!(replaced[0].id, x);
    assert_eq!(replaced[1].replacement, format!("{}_duplicated_2", x));
}

#[test]
fn invalid_enum_positions_read_back() {
    let feed = read(&test_data_invalid_enum_positions());
    assert_eq!(feed.entity.len(), 2);
    let trip = feed.entity[0].vehicle.as_ref().unwrap().trip.as_ref().unwrap();
    assert_eq!(trip.schedule_relationship, Some(256));
    assert_eq!(feed.entity[0].id, "1");
    assert_eq!(feed.entity[1].id, "2");
}

#[test]
fn duplicate_ids_read_back() {
    let feed = read(&test_data_duplicate_ids_positions());
    assert_eq!(feed.entity.len(), 3);
    assert_eq!(feed.entity[0].id, feed.entity[2].id);
    assert_eq!(feed.header.incrementality, None);
}

#[test]
fn differential_feed_read_back() {
    let feed = read(&test_data_differential_feed());
    assert_eq!(feed.header.incrementality, Some(1));
    assert_eq!(feed.header.gtfs_realtime_version, "2.0");
    assert_eq!(feed.entity.len(), 0);
}

#[test]
fn enum_roundtrip_positions_labels() {
    let (bytes, columns) = test_data_enum_roundtrip_positions();
    let feed = read(&bytes);
    assert_eq!(feed.entity.len(), 10);
    assert_eq!(columns.len(), 5);
    assert_eq!(columns[1].name, "vehicle_wheelchair_accessible");
    assert_eq!(columns[4].name, "occupancy_status");
    assert_eq!(columns[4].labels[8], Some("NOT_BOARDABLE"));
    assert_eq!(columns[4].labels[9], None);
    assert_eq!(columns[2].labels[2], Some("IN_TRANSIT_TO"));
    assert_eq!(columns[2].labels[3], None);
}

#[test]
fn enum_roundtrip_updates_labels() {
    let (bytes, columns) = test_data_enum_roundtrip_updates();
    let feed = read(&bytes);
    assert_eq!(feed.entity.len(), 10);
    assert_eq!(columns[0].labels[4], Some("REPLACEMENT"));
    assert_eq!(columns[3].labels[2], Some("NO_DATA"));
}

#[test]
fn enum_roundtrip_alerts_labels() {
    let (bytes, columns) = test_data_enum_roundtrip_alerts();
    let feed = read(&bytes);
    assert_eq!(feed.entity.len(), 13);
    assert_eq!(columns[1].labels[0], Some("UNKNOWN_CAUSE"));
    assert_eq!(columns[1].labels[11], Some("MEDICAL_EMERGENCY"));
    assert_eq!(columns[1].labels[12], None);
    assert_eq!(columns[3].labels[3], Some("SEVERE"));
    let (rows, _) = read_gtfsrt_alerts_internal(&vec![feed]);
    assert_eq!(rows.len(), 13);
    assert_eq!(rows[0].effect, Some(1));
    assert_eq!(rows[10].effect, Some(11));
    assert_eq!(rows[11].effect, None);
    assert_eq!(rows[12].cause, None);
    assert_eq!(rows[7].feed_index, 7);
}

fn entity(id: &str) -> FeedEntity {
    let mut e = FeedEntity::new();
    e.id = id.to_string();
    e
}

fn alert_feed() -> FeedMessage {
    let mut feed = FeedMessage::new();
    for id in ["a", "a", "b", "a"] {
        let mut e = entity(id);
        e.alert = Some(Alert::new());
        feed.entity.push(e);
    }
    feed
}

fn trip_update_entity(id: &str) -> FeedEntity {
    let mut e = entity(id);
    let mut u = TripUpdate::new();
    u.stop_time_update.push(StopTimeUpdate::new());
    u.stop_time_update.push(StopTimeUpdate::new());
    e.trip_update = Some(u);
    e
}

#[test]
fn repeated_alert_ids_are_replaced_per_file() {
    let (rows, replaced) = read_gtfsrt_alerts_internal(&vec![alert_feed(), alert_feed()]);
    let ids: Vec<&str> = rows.iter().map(|r| r.id.as_str()).collect();
    assert_eq!(ids, ["a", "a_duplicated_1", "b", "a_duplicated_2", "a", "a_duplicated_1", "b", "a_duplicated_2"]);
    let files: Vec<usize> = rows.iter().map(|r| r.file_index).collect();
    assert_eq!(files, [0, 0, 0, 0, 1, 1, 1, 1]);
    let numbers: Vec<i32> = rows.iter().map(|r| r.feed_index).collect();
    assert_eq!(numbers, [0, 1, 2, 3, 0, 1, 2, 3]);
    assert_eq!(replaced.len(), 4);
    assert_eq!(replaced[0].id, "a");
    assert_eq!(replaced[0].replacement, "a_duplicated_1");
    assert_eq!(replaced[1].replacement, "a_duplicated_2");
}

#[test]
fn trip_update_rows_share_a_deduplicated_id() {
    let mut feed = FeedMessage::new();
    feed.entity.push(trip_update_entity("t"));
    feed.entity.push(entity("skip"));
    feed.entity.push(trip_update_entity("t"));
    let (rows, replaced) = read_gtfsrt_trip_updates_internal(&vec![feed]);
    let ids: Vec<&str> = rows.iter().map(|r| r.id.as_str()).collect();
    assert_eq!(ids, ["t", "t", "t_duplicated_1", "t_duplicated_1"]);
    let numbers: Vec<i32> = rows.iter().map(|r| r.feed_index).collect();
    assert_eq!(numbers, [0, 0, 1, 1]);
    assert_eq!(replaced.len(), 1);
    assert_eq!(replaced[0].id, "t");
    assert_eq!(replaced[0].replacement, "t_duplicated_1");
}
