//! Sample feeds for exercising the readers: each function builds a feed
//! message and gives back its wire bytes, ready to be written to a file.

use crate::encode::{encode_feed_message, feed_message_encoded};
use crate::enums::{as_str_name_t, enum_variants, get_or_none, label_of, variants, ProtoEnum};
use crate::model::{
    Alert, EntitySelector, FeedEntity, FeedHeader, FeedMessage, Position, SpecAlert,
    SpecEntitySelector, SpecFeedEntity, SpecFeedHeader, SpecFeedMessage, SpecPosition,
    SpecStopTimeEvent, SpecStopTimeUpdate, SpecTimeRange, SpecTranslatedString,
    SpecTranslation, SpecTripDescriptor, SpecTripUpdate, SpecVehicleDescriptor,
    SpecVehiclePosition, StopTimeEvent, StopTimeUpdate, TimeRange, TranslatedString,
    Translation, TripDescriptor, TripUpdate, VehicleDescriptor, VehiclePosition,
};
use crate::text::{decimal, push_decimal};
use vstd::prelude::*;

verus! {

/// The header of the sample feeds: version 2.0, a full dataset, at a fixed
/// time.
pub open spec fn sample_header() -> SpecFeedHeader {
    SpecFeedHeader {
        gtfs_realtime_version: "2.0"@,
        incrementality: Some(0),
        timestamp: Some(1774967578),
        feed_version: None,
    }
}

/// An entity with id `id` and no payload.
pub open spec fn bare_entity(id: Seq<char>) -> SpecFeedEntity {
    SpecFeedEntity {
        id,
        is_deleted: None,
        trip_update: None,
        vehicle: None,
        alert: None,
        shape: None,
        stop: None,
        trip_modifications: None,
    }
}

/// One entity per vehicle position, numbered from 1.
pub open spec fn position_entities(ps: Seq<SpecVehiclePosition>) -> Seq<SpecFeedEntity> {
    ps.map(|i: int, p: SpecVehiclePosition| SpecFeedEntity { vehicle: Some(p), ..bare_entity(decimal((i + 1) as nat)) })
}

/// One entity per alert, numbered from 1.
pub open spec fn alert_entities(als: Seq<SpecAlert>) -> Seq<SpecFeedEntity> {
    als.map(|i: int, a: SpecAlert| SpecFeedEntity { alert: Some(a), ..bare_entity(decimal((i + 1) as nat)) })
}

/// One entity per trip update, numbered from 1.
pub open spec fn update_entities(us: Seq<SpecTripUpdate>) -> Seq<SpecFeedEntity> {
    us.map(|i: int, u: SpecTripUpdate| SpecFeedEntity { trip_update: Some(u), ..bare_entity(decimal((i + 1) as nat)) })
}

/// The sample feed of the given positions, alerts and trip updates, in that
/// order; each kind is numbered from 1 on its own.
pub open spec fn sample_feed(
    ps: Seq<SpecVehiclePosition>,
    als: Seq<SpecAlert>,
    us: Seq<SpecTripUpdate>,
) -> SpecFeedMessage {
    SpecFeedMessage {
        header: sample_header(),
        entity: position_entities(ps) + alert_entities(als) + update_entities(us),
    }
}

fn sample_entity_id(i: usize) -> (r: String)
    requires
        i < usize::MAX,
    ensures
        r@ == decimal((i + 1) as nat),
{
    let mut s = String::new();
    push_decimal(&mut s, (i + 1) as u64);
    assert(s@ =~= decimal((i + 1) as nat));
    s
}

fn empty_entity(id: String) -> (r: FeedEntity)
    ensures
        r.deep_view() == bare_entity(id@),
{
    FeedEntity {
        id,
        is_deleted: None,
        trip_update: None,
        vehicle: None,
        alert: None,
        shape: None,
        stop: None,
        trip_modifications: None,
    }
}

fn take_first<T: DeepView>(v: &mut Vec<T>) -> (r: T)
    requires
        old(v).deep_view().len() > 0,
    ensures
        r.deep_view() == old(v).deep_view()[0],
        final(v).deep_view() == old(v).deep_view().skip(1),
{
    let ghost before = v@;
    let r = v.remove(0);
    assert forall|q: int| 0 <= q < v@.len() implies v@[q] == before[q + 1] by {}
    assert(v.deep_view() =~= Seq::new(before.len(), |i: int| before[i].deep_view()).skip(1));
    r
}

fn push_deep<T: DeepView>(v: &mut Vec<T>, x: T)
    ensures
        final(v).deep_view() == old(v).deep_view().push(x.deep_view()),
{
    let ghost before = v@;
    v.push(x);
    assert(v.deep_view() =~= Seq::new(before.len(), |i: int| before[i].deep_view()).push(
        x.deep_view(),
    ));
}

/// The sample feed message of `positions`, `alerts` and `trip_updates`.
pub fn sample_feed_message(
    positions: Vec<VehiclePosition>,
    alerts: Vec<Alert>,
    trip_updates: Vec<TripUpdate>,
) -> (r: FeedMessage)
    requires
        positions@.len() + alerts@.len() + trip_updates@.len() < usize::MAX,
    ensures
        r.deep_view() == sample_feed(
            positions.deep_view(),
            alerts.deep_view(),
            trip_updates.deep_view(),
        ),
{
    let ghost pv = positions.deep_view();
    let ghost av = alerts.deep_view();
    let ghost uv = trip_updates.deep_view();
    let mut entity: Vec<FeedEntity> = Vec::new();
    let mut positions = positions;
    let n = positions.len();
    let mut i: usize = 0;
    while i < n
        invariant
            0 <= i <= n,
            n == pv.len(),
            n < usize::MAX,
            positions.deep_view() == pv.skip(i as int),
            entity.deep_view() == position_entities(pv.take(i as int)),
        decreases n - i,
    {
        assert(positions.deep_view()[0] == pv[i as int]);
        let p = take_first(&mut positions);
        let mut e = empty_entity(sample_entity_id(i));
        e.vehicle = Some(p);
        push_deep(&mut entity, e);
        assert(positions.deep_view() =~= pv.skip(i + 1));
        assert(entity.deep_view() =~= position_entities(pv.take(i + 1)));
        i += 1;
    }
    assert(pv.take(n as int) =~= pv);
    let ghost e1 = entity.deep_view();
    let mut alerts = alerts;
    let m = alerts.len();
    let mut j: usize = 0;
    while j < m
        invariant
            0 <= j <= m,
            m == av.len(),
            m < usize::MAX,
            alerts.deep_view() == av.skip(j as int),
            entity.deep_view() == e1 + alert_entities(av.take(j as int)),
        decreases m - j,
    {
        assert(alerts.deep_view()[0] == av[j as int]);
        let a = take_first(&mut alerts);
        let mut e = empty_entity(sample_entity_id(j));
        e.alert = Some(a);
        push_deep(&mut entity, e);
        assert(alerts.deep_view() =~= av.skip(j + 1));
        assert(entity.deep_view() =~= e1 + alert_entities(av.take(j + 1)));
        j += 1;
    }
    assert(av.take(m as int) =~= av);
    let ghost e2 = entity.deep_view();
    let mut trip_updates = trip_updates;
    let l = trip_updates.len();
    let mut k: usize = 0;
    while k < l
        invariant
            0 <= k <= l,
            l == uv.len(),
            l < usize::MAX,
            trip_updates.deep_view() == uv.skip(k as int),
            entity.deep_view() == e2 + update_entities(uv.take(k as int)),
        decreases l - k,
    {
        assert(trip_updates.deep_view()[0] == uv[k as int]);
        let u = take_first(&mut trip_updates);
        let mut e = empty_entity(sample_entity_id(k));
        e.trip_update = Some(u);
        push_deep(&mut entity, e);
        assert(trip_updates.deep_view() =~= uv.skip(k + 1));
        assert(entity.deep_view() =~= e2 + update_entities(uv.take(k + 1)));
        k += 1;
    }
    assert(uv.take(l as int) =~= uv);
    let header = FeedHeader {
        gtfs_realtime_version: "2.0".to_owned(),
        incrementality: Some(0),
        timestamp: Some(1774967578),
        feed_version: None,
    };
    let r = FeedMessage { header, entity };
    assert(r.deep_view().entity =~= sample_feed(pv, av, uv).entity);
    r
}

/// The wire bytes of the sample feed of `positions`, `alerts` and
/// `trip_updates`.
pub fn sample_feed_bytes(
    positions: Vec<VehiclePosition>,
    alerts: Vec<Alert>,
    trip_updates: Vec<TripUpdate>,
) -> (r: Vec<u8>)
    requires
        positions@.len() + alerts@.len() + trip_updates@.len() < usize::MAX,
    ensures
        r@ == feed_message_encoded(
            sample_feed(positions.deep_view(), alerts.deep_view(), trip_updates.deep_view()),
        ),
{
    let m = sample_feed_message(positions, alerts, trip_updates);
    let mut buf: Vec<u8> = Vec::new();
    encode_feed_message(&m, &mut buf);
    assert(buf@ =~= feed_message_encoded(m.deep_view()));
    buf
}

pub open spec fn invalid_enum_positions_0() -> SpecVehiclePosition {
    SpecVehiclePosition {
        trip: Some(SpecTripDescriptor {
            trip_id: Some("8675309"@),
            start_time: Some("06:00:00"@),
            start_date: Some("20260331"@),
            schedule_relationship: Some(256),
            route_id: Some("16"@),
            direction_id: Some(0),
            modified_trip: None,
        }),
        position: Some(SpecPosition {
            latitude: 1108702134,
            longitude: 3270786810,
            bearing: None,
            odometer: None,
            speed: None,
        }),
        current_stop_sequence: Some(5),
        current_status: Some(2),
        timestamp: Some(1774967570),
        congestion_level: None,
        stop_id: Some("52"@),
        vehicle: Some(SpecVehicleDescriptor {
            id: None,
            label: None,
            license_plate: None,
            wheelchair_accessible: None,
        }),
        occupancy_status: Some(3),
        occupancy_percentage: None,
        multi_carriage_details: Seq::empty(),
    }
}

fn invalid_enum_positions_0_value() -> (r: VehiclePosition)
    ensures
        r.deep_view() == invalid_enum_positions_0(),
{
    VehiclePosition {
        trip: Some(TripDescriptor {
            trip_id: Some("8675309".to_owned()),
            start_time: Some("06:00:00".to_owned()),
            start_date: Some("20260331".to_owned()),
            schedule_relationship: Some(256),
            route_id: Some("16".to_owned()),
            direction_id: Some(0),
            modified_trip: None,
        }),
        position: Some(Position {
            latitude: 1108702134,
            longitude: 3270786810,
            bearing: None,
            odometer: None,
            speed: None,
        }),
        current_stop_sequence: Some(5),
        current_status: Some(2),
        timestamp: Some(1774967570),
        congestion_level: None,
        stop_id: Some("52".to_owned()),
        vehicle: Some(VehicleDescriptor {
            id: None,
            label: None,
            license_plate: None,
            wheelchair_accessible: None,
        }),
        occupancy_status: Some(3),
        occupancy_percentage: None,
        multi_carriage_details: Vec::new(),
    }
}

pub open spec fn invalid_enum_positions_1() -> SpecVehiclePosition {
    SpecVehiclePosition {
        trip: Some(SpecTripDescriptor {
            trip_id: Some("8675310"@),
            start_time: Some("06:05:00"@),
            start_date: Some("20260331"@),
            schedule_relationship: Some(0),
            route_id: Some("16"@),
            direction_id: Some(0),
            modified_trip: None,
        }),
        position: Some(SpecPosition {
            latitude: 1108702134,
            longitude: 3270786810,
            bearing: None,
            odometer: None,
            speed: None,
        }),
        current_stop_sequence: Some(5),
        current_status: Some(2),
        timestamp: Some(1774967570),
        congestion_level: None,
        stop_id: Some("52"@),
        vehicle: Some(SpecVehicleDescriptor {
            id: None,
            label: None,
            license_plate: None,
            wheelchair_accessible: None,
        }),
        occupancy_status: Some(3),
        occupancy_percentage: None,
        multi_carriage_details: Seq::empty(),
    }
}

fn invalid_enum_positions_1_value() -> (r: VehiclePosition)
    ensures
        r.deep_view() == invalid_enum_positions_1(),
{
    VehiclePosition {
        trip: Some(TripDescriptor {
            trip_id: Some("8675310".to_owned()),
            start_time: Some("06:05:00".to_owned()),
            start_date: Some("20260331".to_owned()),
            schedule_relationship: Some(0),
            route_id: Some("16".to_owned()),
            direction_id: Some(0),
            modified_trip: None,
        }),
        position: Some(Position {
            latitude: 1108702134,
            longitude: 3270786810,
            bearing: None,
            odometer: None,
            speed: None,
        }),
        current_stop_sequence: Some(5),
        current_status: Some(2),
        timestamp: Some(1774967570),
        congestion_level: None,
        stop_id: Some("52".to_owned()),
        vehicle: Some(VehicleDescriptor {
            id: None,
            label: None,
            license_plate: None,
            wheelchair_accessible: None,
        }),
        occupancy_status: Some(3),
        occupancy_percentage: None,
        multi_carriage_details: Vec::new(),
    }
}

/// Two vehicle positions; the trip of the first has a schedule relationship that the schema does not declare.
pub open spec fn invalid_enum_positions() -> Seq<SpecVehiclePosition> {
    seq![invalid_enum_positions_0(), invalid_enum_positions_1()]
}

fn invalid_enum_positions_values() -> (r: Vec<VehiclePosition>)
    ensures
        r.deep_view() == invalid_enum_positions(),
{
    let mut r: Vec<VehiclePosition> = Vec::new();
    push_deep(&mut r, invalid_enum_positions_0_value());
    push_deep(&mut r, invalid_enum_positions_1_value());
    assert(r.deep_view() =~= invalid_enum_positions());
    r
}

pub open spec fn alert_unwrapping_alerts_0() -> SpecAlert {
    SpecAlert {
        active_period: seq![
            SpecTimeRange {
                start: Some(1775079486),
                end: Some(1775080486),
            },
            SpecTimeRange {
                start: Some(1775179486),
                end: Some(1775180486),
            },
        ],
        informed_entity: seq![
            SpecEntitySelector {
                agency_id: Some("agency1"@),
                route_id: Some("route1"@),
                route_type: Some(1),
                trip: Some(SpecTripDescriptor {
                    trip_id: Some("trip1"@),
                    start_time: Some("20:00:00"@),
                    start_date: Some("20260311"@),
                    schedule_relationship: Some(3),
                    route_id: Some("trip1_route1"@),
                    direction_id: Some(0),
                    modified_trip: None,
                }),
                stop_id: Some("stop1"@),
                direction_id: Some(1),
            },
            SpecEntitySelector {
                agency_id: Some("agency2"@),
                route_id: Some("route2"@),
                route_type: Some(2),
                trip: Some(SpecTripDescriptor {
                    trip_id: Some("trip2"@),
                    start_time: Some("22:00:00"@),
                    start_date: Some("20260312"@),
                    schedule_relationship: Some(0),
                    route_id: Some("trip2_route2"@),
                    direction_id: Some(1),
                    modified_trip: None,
                }),
                stop_id: Some("stop2"@),
                direction_id: Some(0),
            },
        ],
        cause: Some(8),
        effect: Some(1),
        url: Some(SpecTranslatedString {
            translation: seq![
                SpecTranslation {
                    text: "https://example.com/test"@,
                    language: Some("en"@),
                },
                SpecTranslation {
                    text: "https://example.com/test"@,
                    language: Some("es"@),
                },
            ],
        }),
        header_text: Some(SpecTranslatedString {
            translation: seq![
                SpecTranslation {
                    text: "The bus is not working"@,
                    language: Some("en"@),
                },
                SpecTranslation {
                    text: "El autobús no se funciona"@,
                    language: Some("es"@),
                },
            ],
        }),
        description_text: Some(SpecTranslatedString {
            translation: seq![
                SpecTranslation {
                    text: "The bus is not working because it broke"@,
                    language: Some("en"@),
                },
                SpecTranslation {
                    text: "El autobús no se funciona por que se fuera"@,
                    language: Some("es"@),
                },
            ],
        }),
        tts_header_text: Some(SpecTranslatedString {
            translation: seq![
                SpecTranslation {
                    text: "Problem: The bus is not working"@,
                    language: Some("en"@),
                },
                SpecTranslation {
                    text: "Problema: El autobús no se funciona"@,
                    language: Some("es"@),
                },
            ],
        }),
        tts_description_text: Some(SpecTranslatedString {
            translation: seq![
                SpecTranslation {
                    text: "Problem: The bus is not working because it broke"@,
                    language: Some("en"@),
                },
                SpecTranslation {
                    text: "Problema: El autobús no se funciona por que se fuera"@,
                    language: Some("es"@),
                },
            ],
        }),
        severity_level: Some(4),
        image: None,
        image_alternative_text: None,
        cause_detail: Some(SpecTranslatedString {
            translation: seq![
                SpecTranslation {
                    text: "it broke"@,
                    language: Some("en"@),
                },
                SpecTranslation {
                    text: "se fuera"@,
                    language: Some("es"@),
                },
            ],
        }),
        effect_detail: Some(SpecTranslatedString {
            translation: seq![
                SpecTranslation {
                    text: "No bus now"@,
                    language: Some("en"@),
                },
                SpecTranslation {
                    text: "No hay un autobús ahora"@,
                    language: Some("es"@),
                },
            ],
        }),
    }
}

fn alert_unwrapping_alerts_0_value() -> (r: Alert)
    ensures
        r.deep_view() == alert_unwrapping_alerts_0(),
{
    Alert {
        active_period: vec![
            TimeRange {
                start: Some(1775079486),
                end: Some(1775080486),
            },
            TimeRange {
                start: Some(1775179486),
                end: Some(1775180486),
            },
        ],
        informed_entity: vec![
            EntitySelector {
                agency_id: Some("agency1".to_owned()),
                route_id: Some("route1".to_owned()),
                route_type: Some(1),
                trip: Some(TripDescriptor {
                    trip_id: Some("trip1".to_owned()),
                    start_time: Some("20:00:00".to_owned()),
                    start_date: Some("20260311".to_owned()),
                    schedule_relationship: Some(3),
                    route_id: Some("trip1_route1".to_owned()),
                    direction_id: Some(0),
                    modified_trip: None,
                }),
                stop_id: Some("stop1".to_owned()),
                direction_id: Some(1),
            },
            EntitySelector {
                agency_id: Some("agency2".to_owned()),
                route_id: Some("route2".to_owned()),
                route_type: Some(2),
                trip: Some(TripDescriptor {
                    trip_id: Some("trip2".to_owned()),
                    start_time: Some("22:00:00".to_owned()),
                    start_date: Some("20260312".to_owned()),
                    schedule_relationship: Some(0),
                    route_id: Some("trip2_route2".to_owned()),
                    direction_id: Some(1),
                    modified_trip: None,
                }),
                stop_id: Some("stop2".to_owned()),
                direction_id: Some(0),
            },
        ],
        cause: Some(8),
        effect: Some(1),
        url: Some(TranslatedString {
            translation: vec![
                Translation {
                    text: "https://example.com/test".to_owned(),
                    language: Some("en".to_owned()),
                },
                Translation {
                    text: "https://example.com/test".to_owned(),
                    language: Some("es".to_owned()),
                },
            ],
        }),
        header_text: Some(TranslatedString {
            translation: vec![
                Translation {
                    text: "The bus is not working".to_owned(),
                    language: Some("en".to_owned()),
                },
                Translation {
                    text: "El autobús no se funciona".to_owned(),
                    language: Some("es".to_owned()),
                },
            ],
        }),
        description_text: Some(TranslatedString {
            translation: vec![
                Translation {
                    text: "The bus is not working because it broke".to_owned(),
                    language: Some("en".to_owned()),
                },
                Translation {
                    text: "El autobús no se funciona por que se fuera".to_owned(),
                    language: Some("es".to_owned()),
                },
            ],
        }),
        tts_header_text: Some(TranslatedString {
            translation: vec![
                Translation {
                    text: "Problem: The bus is not working".to_owned(),
                    language: Some("en".to_owned()),
                },
                Translation {
                    text: "Problema: El autobús no se funciona".to_owned(),
                    language: Some("es".to_owned()),
                },
            ],
        }),
        tts_description_text: Some(TranslatedString {
            translation: vec![
                Translation {
                    text: "Problem: The bus is not working because it broke".to_owned(),
                    language: Some("en".to_owned()),
                },
                Translation {
                    text: "Problema: El autobús no se funciona por que se fuera".to_owned(),
                    language: Some("es".to_owned()),
                },
            ],
        }),
        severity_level: Some(4),
        image: None,
        image_alternative_text: None,
        cause_detail: Some(TranslatedString {
            translation: vec![
                Translation {
                    text: "it broke".to_owned(),
                    language: Some("en".to_owned()),
                },
                Translation {
                    text: "se fuera".to_owned(),
                    language: Some("es".to_owned()),
                },
            ],
        }),
        effect_detail: Some(TranslatedString {
            translation: vec![
                Translation {
                    text: "No bus now".to_owned(),
                    language: Some("en".to_owned()),
                },
                Translation {
                    text: "No hay un autobús ahora".to_owned(),
                    language: Some("es".to_owned()),
                },
            ],
        }),
    }
}

pub open spec fn alert_unwrapping_alerts_1() -> SpecAlert {
    SpecAlert {
        active_period: seq![
            SpecTimeRange {
                start: Some(1775079486),
                end: Some(1775080486),
            },
            SpecTimeRange {
                start: Some(1775179486),
                end: Some(1775180486),
            },
        ],
        informed_entity: seq![
            SpecEntitySelector {
                agency_id: Some("agency1"@),
                route_id: Some("route1"@),
                route_type: Some(1),
                trip: Some(SpecTripDescriptor {
                    trip_id: Some("trip1"@),
                    start_time: Some("20:00:00"@),
                    start_date: Some("20260311"@),
                    schedule_relationship: Some(3),
                    route_id: Some("trip1_route1"@),
                    direction_id: Some(0),
                    modified_trip: None,
                }),
                stop_id: Some("stop1"@),
                direction_id: Some(1),
            },
            SpecEntitySelector {
                agency_id: Some("agency2"@),
                route_id: Some("route2"@),
                route_type: Some(2),
                trip: Some(SpecTripDescriptor {
                    trip_id: Some("trip2"@),
                    start_time: Some("22:00:00"@),
                    start_date: Some("20260312"@),
                    schedule_relationship: Some(0),
                    route_id: Some("trip2_route2"@),
                    direction_id: Some(1),
                    modified_trip: None,
                }),
                stop_id: Some("stop2"@),
                direction_id: Some(0),
            },
        ],
        cause: Some(8),
        effect: Some(1),
        url: Some(SpecTranslatedString {
            translation: seq![
                SpecTranslation {
                    text: "https://example.com/test"@,
                    language: Some("en"@),
                },
                SpecTranslation {
                    text: "https://example.com/test"@,
                    language: Some("es"@),
                },
            ],
        }),
        header_text: Some(SpecTranslatedString {
            translation: seq![
                SpecTranslation {
                    text: "The bus is not working"@,
                    language: Some("en"@),
                },
                SpecTranslation {
                    text: "El autobús no se funciona"@,
                    language: Some("es"@),
                },
            ],
        }),
        description_text: Some(SpecTranslatedString {
            translation: seq![
                SpecTranslation {
                    text: "The bus is not working because it broke"@,
                    language: Some("en"@),
                },
                SpecTranslation {
                    text: "El autobús no se funciona por que se fuera"@,
                    language: Some("es"@),
                },
            ],
        }),
        tts_header_text: Some(SpecTranslatedString {
            translation: seq![
                SpecTranslation {
                    text: "Problem: The bus is not working"@,
                    language: Some("en"@),
                },
                SpecTranslation {
                    text: "Problema: El autobús no se funciona"@,
                    language: Some("es"@),
                },
            ],
        }),
        tts_description_text: Some(SpecTranslatedString {
            translation: seq![
                SpecTranslation {
                    text: "Problem: The bus is not working because it broke"@,
                    language: Some("en"@),
                },
            ],
        }),
        severity_level: Some(4),
        image: None,
        image_alternative_text: None,
        cause_detail: Some(SpecTranslatedString {
            translation: seq![
                SpecTranslation {
                    text: "it broke"@,
                    language: Some("en"@),
                },
            ],
        }),
        effect_detail: Some(SpecTranslatedString {
            translation: seq![
                SpecTranslation {
                    text: "No bus now"@,
                    language: Some("en"@),
                },
                SpecTranslation {
                    text: "No hay un autobús ahora"@,
                    language: Some("es"@),
                },
            ],
        }),
    }
}

fn alert_unwrapping_alerts_1_value() -> (r: Alert)
    ensures
        r.deep_view() == alert_unwrapping_alerts_1(),
{
    Alert {
        active_period: vec![
            TimeRange {
                start: Some(1775079486),
                end: Some(1775080486),
            },
            TimeRange {
                start: Some(1775179486),
                end: Some(1775180486),
            },
        ],
        informed_entity: vec![
            EntitySelector {
                agency_id: Some("agency1".to_owned()),
                route_id: Some("route1".to_owned()),
                route_type: Some(1),
                trip: Some(TripDescriptor {
                    trip_id: Some("trip1".to_owned()),
                    start_time: Some("20:00:00".to_owned()),
                    start_date: Some("20260311".to_owned()),
                    schedule_relationship: Some(3),
                    route_id: Some("trip1_route1".to_owned()),
                    direction_id: Some(0),
                    modified_trip: None,
                }),
                stop_id: Some("stop1".to_owned()),
                direction_id: Some(1),
            },
            EntitySelector {
                agency_id: Some("agency2".to_owned()),
                route_id: Some("route2".to_owned()),
                route_type: Some(2),
                trip: Some(TripDescriptor {
                    trip_id: Some("trip2".to_owned()),
                    start_time: Some("22:00:00".to_owned()),
                    start_date: Some("20260312".to_owned()),
                    schedule_relationship: Some(0),
                    route_id: Some("trip2_route2".to_owned()),
                    direction_id: Some(1),
                    modified_trip: None,
                }),
                stop_id: Some("stop2".to_owned()),
                direction_id: Some(0),
            },
        ],
        cause: Some(8),
        effect: Some(1),
        url: Some(TranslatedString {
            translation: vec![
                Translation {
                    text: "https://example.com/test".to_owned(),
                    language: Some("en".to_owned()),
                },
                Translation {
                    text: "https://example.com/test".to_owned(),
                    language: Some("es".to_owned()),
                },
            ],
        }),
        header_text: Some(TranslatedString {
            translation: vec![
                Translation {
                    text: "The bus is not working".to_owned(),
                    language: Some("en".to_owned()),
                },
                Translation {
                    text: "El autobús no se funciona".to_owned(),
                    language: Some("es".to_owned()),
                },
            ],
        }),
        description_text: Some(TranslatedString {
            translation: vec![
                Translation {
                    text: "The bus is not working because it broke".to_owned(),
                    language: Some("en".to_owned()),
                },
                Translation {
                    text: "El autobús no se funciona por que se fuera".to_owned(),
                    language: Some("es".to_owned()),
                },
            ],
        }),
        tts_header_text: Some(TranslatedString {
            translation: vec![
                Translation {
                    text: "Problem: The bus is not working".to_owned(),
                    language: Some("en".to_owned()),
                },
                Translation {
                    text: "Problema: El autobús no se funciona".to_owned(),
                    language: Some("es".to_owned()),
                },
            ],
        }),
        tts_description_text: Some(TranslatedString {
            translation: vec![
                Translation {
                    text: "Problem: The bus is not working because it broke".to_owned(),
                    language: Some("en".to_owned()),
                },
            ],
        }),
        severity_level: Some(4),
        image: None,
        image_alternative_text: None,
        cause_detail: Some(TranslatedString {
            translation: vec![
                Translation {
                    text: "it broke".to_owned(),
                    language: Some("en".to_owned()),
                },
            ],
        }),
        effect_detail: Some(TranslatedString {
            translation: vec![
                Translation {
                    text: "No bus now".to_owned(),
                    language: Some("en".to_owned()),
                },
                Translation {
                    text: "No hay un autobús ahora".to_owned(),
                    language: Some("es".to_owned()),
                },
            ],
        }),
    }
}

pub open spec fn alert_unwrapping_alerts_2() -> SpecAlert {
    SpecAlert {
        active_period: seq![
            SpecTimeRange {
                start: None,
                end: None,
            },
            SpecTimeRange {
                start: None,
                end: None,
            },
        ],
        informed_entity: seq![
            SpecEntitySelector {
                agency_id: None,
                route_id: None,
                route_type: None,
                trip: Some(SpecTripDescriptor {
                    trip_id: None,
                    start_time: None,
                    start_date: None,
                    schedule_relationship: None,
                    route_id: None,
                    direction_id: None,
                    modified_trip: None,
                }),
                stop_id: None,
                direction_id: None,
            },
            SpecEntitySelector {
                agency_id: None,
                route_id: None,
                route_type: None,
                trip: Some(SpecTripDescriptor {
                    trip_id: None,
                    start_time: None,
                    start_date: None,
                    schedule_relationship: None,
                    route_id: None,
                    direction_id: None,
                    modified_trip: None,
                }),
                stop_id: None,
                direction_id: None,
            },
        ],
        cause: None,
        effect: None,
        url: Some(SpecTranslatedString {
            translation: seq![
                SpecTranslation {
                    text: "https://example.com/test"@,
                    language: None,
                },
            ],
        }),
        header_text: Some(SpecTranslatedString {
            translation: seq![
                SpecTranslation {
                    text: "The bus is not working"@,
                    language: None,
                },
            ],
        }),
        description_text: Some(SpecTranslatedString {
            translation: seq![
                SpecTranslation {
                    text: "The bus is not working because it broke"@,
                    language: None,
                },
            ],
        }),
        tts_header_text: Some(SpecTranslatedString {
            translation: seq![
                SpecTranslation {
                    text: "Problem: The bus is not working"@,
                    language: None,
                },
            ],
        }),
        tts_description_text: Some(SpecTranslatedString {
            translation: seq![
                SpecTranslation {
                    text: "Problem: The bus is not working because it broke"@,
                    language: None,
                },
            ],
        }),
        severity_level: None,
        image: None,
        image_alternative_text: None,
        cause_detail: Some(SpecTranslatedString {
            translation: seq![
                SpecTranslation {
                    text: "it broke"@,
                    language: None,
                },
            ],
        }),
        effect_detail: Some(SpecTranslatedString {
            translation: seq![
                SpecTranslation {
                    text: "No bus now"@,
                    language: None,
                },
            ],
        }),
    }
}

fn alert_unwrapping_alerts_2_value() -> (r: Alert)
    ensures
        r.deep_view() == alert_unwrapping_alerts_2(),
{
    Alert {
        active_period: vec![
            TimeRange {
                start: None,
                end: None,
            },
            TimeRange {
                start: None,
                end: None,
            },
        ],
        informed_entity: vec![
            EntitySelector {
                agency_id: None,
                route_id: None,
                route_type: None,
                trip: Some(TripDescriptor {
                    trip_id: None,
                    start_time: None,
                    start_date: None,
                    schedule_relationship: None,
                    route_id: None,
                    direction_id: None,
                    modified_trip: None,
                }),
                stop_id: None,
                direction_id: None,
            },
            EntitySelector {
                agency_id: None,
                route_id: None,
                route_type: None,
                trip: Some(TripDescriptor {
                    trip_id: None,
                    start_time: None,
                    start_date: None,
                    schedule_relationship: None,
                    route_id: None,
                    direction_id: None,
                    modified_trip: None,
                }),
                stop_id: None,
                direction_id: None,
            },
        ],
        cause: None,
        effect: None,
        url: Some(TranslatedString {
            translation: vec![
                Translation {
                    text: "https://example.com/test".to_owned(),
                    language: None,
                },
            ],
        }),
        header_text: Some(TranslatedString {
            translation: vec![
                Translation {
                    text: "The bus is not working".to_owned(),
                    language: None,
                },
            ],
        }),
        description_text: Some(TranslatedString {
            translation: vec![
                Translation {
                    text: "The bus is not working because it broke".to_owned(),
                    language: None,
                },
            ],
        }),
        tts_header_text: Some(TranslatedString {
            translation: vec![
                Translation {
                    text: "Problem: The bus is not working".to_owned(),
                    language: None,
                },
            ],
        }),
        tts_description_text: Some(TranslatedString {
            translation: vec![
                Translation {
                    text: "Problem: The bus is not working because it broke".to_owned(),
                    language: None,
                },
            ],
        }),
        severity_level: None,
        image: None,
        image_alternative_text: None,
        cause_detail: Some(TranslatedString {
            translation: vec![
                Translation {
                    text: "it broke".to_owned(),
                    language: None,
                },
            ],
        }),
        effect_detail: Some(TranslatedString {
            translation: vec![
                Translation {
                    text: "No bus now".to_owned(),
                    language: None,
                },
            ],
        }),
    }
}

pub open spec fn alert_unwrapping_alerts_3() -> SpecAlert {
    SpecAlert {
        active_period: Seq::empty(),
        informed_entity: Seq::empty(),
        cause: None,
        effect: None,
        url: Some(SpecTranslatedString {
            translation: seq![
                SpecTranslation {
                    text: "https://example.com/test"@,
                    language: None,
                },
            ],
        }),
        header_text: Some(SpecTranslatedString {
            translation: seq![
                SpecTranslation {
                    text: "The bus is not working"@,
                    language: None,
                },
            ],
        }),
        description_text: Some(SpecTranslatedString {
            translation: seq![
                SpecTranslation {
                    text: "The bus is not working because it broke"@,
                    language: None,
                },
            ],
        }),
        tts_header_text: Some(SpecTranslatedString {
            translation: seq![
                SpecTranslation {
                    text: "Problem: The bus is not working"@,
                    language: None,
                },
            ],
        }),
        tts_description_text: Some(SpecTranslatedString {
            translation: seq![
                SpecTranslation {
                    text: "Problem: The bus is not working because it broke"@,
                    language: None,
                },
            ],
        }),
        severity_level: None,
        image: None,
        image_alternative_text: None,
        cause_detail: Some(SpecTranslatedString {
            translation: seq![
                SpecTranslation {
                    text: "it broke"@,
                    language: None,
                },
            ],
        }),
        effect_detail: Some(SpecTranslatedString {
            translation: seq![
                SpecTranslation {
                    text: "No bus now"@,
                    language: None,
                },
            ],
        }),
    }
}

fn alert_unwrapping_alerts_3_value() -> (r: Alert)
    ensures
        r.deep_view() == alert_unwrapping_alerts_3(),
{
    Alert {
        active_period: Vec::new(),
        informed_entity: Vec::new(),
        cause: None,
        effect: None,
        url: Some(TranslatedString {
            translation: vec![
                Translation {
                    text: "https://example.com/test".to_owned(),
                    language: None,
                },
            ],
        }),
        header_text: Some(TranslatedString {
            translation: vec![
                Translation {
                    text: "The bus is not working".to_owned(),
                    language: None,
                },
            ],
        }),
        description_text: Some(TranslatedString {
            translation: vec![
                Translation {
                    text: "The bus is not working because it broke".to_owned(),
                    language: None,
                },
            ],
        }),
        tts_header_text: Some(TranslatedString {
            translation: vec![
                Translation {
                    text: "Problem: The bus is not working".to_owned(),
                    language: None,
                },
            ],
        }),
        tts_description_text: Some(TranslatedString {
            translation: vec![
                Translation {
                    text: "Problem: The bus is not working because it broke".to_owned(),
                    language: None,
                },
            ],
        }),
        severity_level: None,
        image: None,
        image_alternative_text: None,
        cause_detail: Some(TranslatedString {
            translation: vec![
                Translation {
                    text: "it broke".to_owned(),
                    language: None,
                },
            ],
        }),
        effect_detail: Some(TranslatedString {
            translation: vec![
                Translation {
                    text: "No bus now".to_owned(),
                    language: None,
                },
            ],
        }),
    }
}

pub open spec fn alert_unwrapping_alerts_4() -> SpecAlert {
    SpecAlert {
        active_period: Seq::empty(),
        informed_entity: Seq::empty(),
        cause: None,
        effect: None,
        url: None,
        header_text: None,
        description_text: None,
        tts_header_text: None,
        tts_description_text: None,
        severity_level: None,
        image: None,
        image_alternative_text: None,
        cause_detail: None,
        effect_detail: None,
    }
}

fn alert_unwrapping_alerts_4_value() -> (r: Alert)
    ensures
        r.deep_view() == alert_unwrapping_alerts_4(),
{
    Alert {
        active_period: Vec::new(),
        informed_entity: Vec::new(),
        cause: None,
        effect: None,
        url: None,
        header_text: None,
        description_text: None,
        tts_header_text: None,
        tts_description_text: None,
        severity_level: None,
        image: None,
        image_alternative_text: None,
        cause_detail: None,
        effect_detail: None,
    }
}

/// Alerts with several active periods, informed entities and languages, some of them missing.
pub open spec fn alert_unwrapping_alerts() -> Seq<SpecAlert> {
    seq![alert_unwrapping_alerts_0(), alert_unwrapping_alerts_1(), alert_unwrapping_alerts_2(), alert_unwrapping_alerts_3(), alert_unwrapping_alerts_4()]
}

fn alert_unwrapping_alerts_values() -> (r: Vec<Alert>)
    ensures
        r.deep_view() == alert_unwrapping_alerts(),
{
    let mut r: Vec<Alert> = Vec::new();
    push_deep(&mut r, alert_unwrapping_alerts_0_value());
    push_deep(&mut r, alert_unwrapping_alerts_1_value());
    push_deep(&mut r, alert_unwrapping_alerts_2_value());
    push_deep(&mut r, alert_unwrapping_alerts_3_value());
    push_deep(&mut r, alert_unwrapping_alerts_4_value());
    assert(r.deep_view() =~= alert_unwrapping_alerts());
    r
}

pub open spec fn update_unwrapping_updates_0() -> SpecTripUpdate {
    SpecTripUpdate {
        trip: SpecTripDescriptor {
            trip_id: Some("one"@),
            start_time: Some("06:00:00"@),
            start_date: Some("20260401"@),
            schedule_relationship: Some(0),
            route_id: Some("rte1"@),
            direction_id: Some(1),
            modified_trip: None,
        },
        stop_time_update: seq![
            SpecStopTimeUpdate {
                stop_sequence: Some(2),
                arrival: Some(SpecStopTimeEvent {
                    delay: Some(5),
                    time: Some(1775059604),
                    uncertainty: Some(35),
                    scheduled_time: None,
                }),
                departure: Some(SpecStopTimeEvent {
                    delay: Some(25),
                    time: Some(1775059624),
                    uncertainty: Some(25),
                    scheduled_time: None,
                }),
                stop_id: Some("stop1"@),
                schedule_relationship: Some(0),
                stop_time_properties: None,
                departure_occupancy_status: Some(1),
            },
            SpecStopTimeUpdate {
                stop_sequence: Some(4),
                arrival: Some(SpecStopTimeEvent {
                    delay: Some(10),
                    time: Some(1775059704),
                    uncertainty: Some(37),
                    scheduled_time: None,
                }),
                departure: Some(SpecStopTimeEvent {
                    delay: Some(30),
                    time: Some(1775059724),
                    uncertainty: Some(27),
                    scheduled_time: None,
                }),
                stop_id: Some("stop2"@),
                schedule_relationship: Some(1),
                stop_time_properties: None,
                departure_occupancy_status: Some(2),
            },
        ],
        vehicle: Some(SpecVehicleDescriptor {
            id: Some("veh1"@),
            label: Some("lab1"@),
            license_plate: Some("PLA-0001"@),
            wheelchair_accessible: Some(2),
        }),
        timestamp: Some(1775059604),
        delay: Some(10),
        trip_properties: None,
    }
}

fn update_unwrapping_updates_0_value() -> (r: TripUpdate)
    ensures
        r.deep_view() == update_unwrapping_updates_0(),
{
    TripUpdate {
        trip: TripDescriptor {
            trip_id: Some("one".to_owned()),
            start_time: Some("06:00:00".to_owned()),
            start_date: Some("20260401".to_owned()),
            schedule_relationship: Some(0),
            route_id: Some("rte1".to_owned()),
            direction_id: Some(1),
            modified_trip: None,
        },
        stop_time_update: vec![
            StopTimeUpdate {
                stop_sequence: Some(2),
                arrival: Some(StopTimeEvent {
                    delay: Some(5),
                    time: Some(1775059604),
                    uncertainty: Some(35),
                    scheduled_time: None,
                }),
                departure: Some(StopTimeEvent {
                    delay: Some(25),
                    time: Some(1775059624),
                    uncertainty: Some(25),
                    scheduled_time: None,
                }),
                stop_id: Some("stop1".to_owned()),
                schedule_relationship: Some(0),
                stop_time_properties: None,
                departure_occupancy_status: Some(1),
            },
            StopTimeUpdate {
                stop_sequence: Some(4),
                arrival: Some(StopTimeEvent {
                    delay: Some(10),
                    time: Some(1775059704),
                    uncertainty: Some(37),
                    scheduled_time: None,
                }),
                departure: Some(StopTimeEvent {
                    delay: Some(30),
                    time: Some(1775059724),
                    uncertainty: Some(27),
                    scheduled_time: None,
                }),
                stop_id: Some("stop2".to_owned()),
                schedule_relationship: Some(1),
                stop_time_properties: None,
                departure_occupancy_status: Some(2),
            },
        ],
        vehicle: Some(VehicleDescriptor {
            id: Some("veh1".to_owned()),
            label: Some("lab1".to_owned()),
            license_plate: Some("PLA-0001".to_owned()),
            wheelchair_accessible: Some(2),
        }),
        timestamp: Some(1775059604),
        delay: Some(10),
        trip_properties: None,
    }
}

pub open spec fn update_unwrapping_updates_1() -> SpecTripUpdate {
    SpecTripUpdate {
        trip: SpecTripDescriptor {
            trip_id: Some("two"@),
            start_time: Some("06:00:02"@),
            start_date: Some("20260402"@),
            schedule_relationship: Some(1),
            route_id: Some("rte2"@),
            direction_id: Some(0),
            modified_trip: None,
        },
        stop_time_update: seq![
            SpecStopTimeUpdate {
                stop_sequence: Some(1),
                arrival: Some(SpecStopTimeEvent {
                    delay: Some(12),
                    time: Some(1775058604),
                    uncertainty: Some(30),
                    scheduled_time: None,
                }),
                departure: Some(SpecStopTimeEvent {
                    delay: Some(20),
                    time: Some(1775058624),
                    uncertainty: Some(24),
                    scheduled_time: None,
                }),
                stop_id: Some("stop1_2"@),
                schedule_relationship: Some(2),
                stop_time_properties: None,
                departure_occupancy_status: Some(1),
            },
        ],
        vehicle: Some(SpecVehicleDescriptor {
            id: Some("veh2"@),
            label: Some("lab2"@),
            license_plate: Some("PLA-0002"@),
            wheelchair_accessible: Some(0),
        }),
        timestamp: Some(1775059600),
        delay: Some(11),
        trip_properties: None,
    }
}

fn update_unwrapping_updates_1_value() -> (r: TripUpdate)
    ensures
        r.deep_view() == update_unwrapping_updates_1(),
{
    TripUpdate {
        trip: TripDescriptor {
            trip_id: Some("two".to_owned()),
            start_time: Some("06:00:02".to_owned()),
            start_date: Some("20260402".to_owned()),
            schedule_relationship: Some(1),
            route_id: Some("rte2".to_owned()),
            direction_id: Some(0),
            modified_trip: None,
        },
        stop_time_update: vec![
            StopTimeUpdate {
                stop_sequence: Some(1),
                arrival: Some(StopTimeEvent {
                    delay: Some(12),
                    time: Some(1775058604),
                    uncertainty: Some(30),
                    scheduled_time: None,
                }),
                departure: Some(StopTimeEvent {
                    delay: Some(20),
                    time: Some(1775058624),
                    uncertainty: Some(24),
                    scheduled_time: None,
                }),
                stop_id: Some("stop1_2".to_owned()),
                schedule_relationship: Some(2),
                stop_time_properties: None,
                departure_occupancy_status: Some(1),
            },
        ],
        vehicle: Some(VehicleDescriptor {
            id: Some("veh2".to_owned()),
            label: Some("lab2".to_owned()),
            license_plate: Some("PLA-0002".to_owned()),
            wheelchair_accessible: Some(0),
        }),
        timestamp: Some(1775059600),
        delay: Some(11),
        trip_properties: None,
    }
}

pub open spec fn update_unwrapping_updates_2() -> SpecTripUpdate {
    SpecTripUpdate {
        trip: SpecTripDescriptor {
            trip_id: Some("three"@),
            start_time: Some("06:00:03"@),
            start_date: Some("20260403"@),
            schedule_relationship: Some(0),
            route_id: Some("rte3"@),
            direction_id: Some(0),
            modified_trip: None,
        },
        stop_time_update: Seq::empty(),
        vehicle: None,
        timestamp: Some(1775059610),
        delay: Some(2),
        trip_properties: None,
    }
}

fn update_unwrapping_updates_2_value() -> (r: TripUpdate)
    ensures
        r.deep_view() == update_unwrapping_updates_2(),
{
    TripUpdate {
        trip: TripDescriptor {
            trip_id: Some("three".to_owned()),
            start_time: Some("06:00:03".to_owned()),
            start_date: Some("20260403".to_owned()),
            schedule_relationship: Some(0),
            route_id: Some("rte3".to_owned()),
            direction_id: Some(0),
            modified_trip: None,
        },
        stop_time_update: Vec::new(),
        vehicle: None,
        timestamp: Some(1775059610),
        delay: Some(2),
        trip_properties: None,
    }
}

/// Trip updates with two, one and no stop time updates.
pub open spec fn update_unwrapping_updates() -> Seq<SpecTripUpdate> {
    seq![update_unwrapping_updates_0(), update_unwrapping_updates_1(), update_unwrapping_updates_2()]
}

fn update_unwrapping_updates_values() -> (r: Vec<TripUpdate>)
    ensures
        r.deep_view() == update_unwrapping_updates(),
{
    let mut r: Vec<TripUpdate> = Vec::new();
    push_deep(&mut r, update_unwrapping_updates_0_value());
    push_deep(&mut r, update_unwrapping_updates_1_value());
    push_deep(&mut r, update_unwrapping_updates_2_value());
    assert(r.deep_view() =~= update_unwrapping_updates());
    r
}

pub open spec fn all_values_positions_0() -> SpecVehiclePosition {
    SpecVehiclePosition {
        trip: Some(SpecTripDescriptor {
            trip_id: Some("trip"@),
            start_time: Some("07:00:00"@),
            start_date: Some("20260401"@),
            schedule_relationship: Some(1),
            route_id: Some("route"@),
            direction_id: Some(1),
            modified_trip: None,
        }),
        position: Some(SpecPosition {
            latitude: 1108702134,
            longitude: 3270786810,
            bearing: Some(1117519872),
            odometer: Some(4710919400092336128),
            speed: Some(1110704128),
        }),
        current_stop_sequence: Some(10),
        current_status: Some(1),
        timestamp: Some(1775076484),
        congestion_level: Some(4),
        stop_id: Some("stop"@),
        vehicle: Some(SpecVehicleDescriptor {
            id: Some("42"@),
            label: Some("label"@),
            license_plate: Some("LIC-4242"@),
            wheelchair_accessible: Some(2),
        }),
        occupancy_status: Some(4),
        occupancy_percentage: Some(15),
        multi_carriage_details: Seq::empty(),
    }
}

fn all_values_positions_0_value() -> (r: VehiclePosition)
    ensures
        r.deep_view() == all_values_positions_0(),
{
    VehiclePosition {
        trip: Some(TripDescriptor {
            trip_id: Some("trip".to_owned()),
            start_time: Some("07:00:00".to_owned()),
            start_date: Some("20260401".to_owned()),
            schedule_relationship: Some(1),
            route_id: Some("route".to_owned()),
            direction_id: Some(1),
            modified_trip: None,
        }),
        position: Some(Position {
            latitude: 1108702134,
            longitude: 3270786810,
            bearing: Some(1117519872),
            odometer: Some(4710919400092336128),
            speed: Some(1110704128),
        }),
        current_stop_sequence: Some(10),
        current_status: Some(1),
        timestamp: Some(1775076484),
        congestion_level: Some(4),
        stop_id: Some("stop".to_owned()),
        vehicle: Some(VehicleDescriptor {
            id: Some("42".to_owned()),
            label: Some("label".to_owned()),
            license_plate: Some("LIC-4242".to_owned()),
            wheelchair_accessible: Some(2),
        }),
        occupancy_status: Some(4),
        occupancy_percentage: Some(15),
        multi_carriage_details: Vec::new(),
    }
}

pub open spec fn all_values_positions_1() -> SpecVehiclePosition {
    SpecVehiclePosition {
        trip: Some(SpecTripDescriptor {
            trip_id: None,
            start_time: None,
            start_date: None,
            schedule_relationship: None,
            route_id: None,
            direction_id: None,
            modified_trip: None,
        }),
        position: Some(SpecPosition {
            latitude: 1108702134,
            longitude: 3270786810,
            bearing: None,
            odometer: None,
            speed: None,
        }),
        current_stop_sequence: None,
        current_status: None,
        timestamp: None,
        congestion_level: None,
        stop_id: None,
        vehicle: Some(SpecVehicleDescriptor {
            id: None,
            label: None,
            license_plate: None,
            wheelchair_accessible: None,
        }),
        occupancy_status: None,
        occupancy_percentage: None,
        multi_carriage_details: Seq::empty(),
    }
}

fn all_values_positions_1_value() -> (r: VehiclePosition)
    ensures
        r.deep_view() == all_values_positions_1(),
{
    VehiclePosition {
        trip: Some(TripDescriptor {
            trip_id: None,
            start_time: None,
            start_date: None,
            schedule_relationship: None,
            route_id: None,
            direction_id: None,
            modified_trip: None,
        }),
        position: Some(Position {
            latitude: 1108702134,
            longitude: 3270786810,
            bearing: None,
            odometer: None,
            speed: None,
        }),
        current_stop_sequence: None,
        current_status: None,
        timestamp: None,
        congestion_level: None,
        stop_id: None,
        vehicle: Some(VehicleDescriptor {
            id: None,
            label: None,
            license_plate: None,
            wheelchair_accessible: None,
        }),
        occupancy_status: None,
        occupancy_percentage: None,
        multi_carriage_details: Vec::new(),
    }
}

pub open spec fn all_values_positions_2() -> SpecVehiclePosition {
    SpecVehiclePosition {
        trip: None,
        position: None,
        current_stop_sequence: None,
        current_status: None,
        timestamp: None,
        congestion_level: None,
        stop_id: None,
        vehicle: None,
        occupancy_status: None,
        occupancy_percentage: None,
        multi_carriage_details: Seq::empty(),
    }
}

fn all_values_positions_2_value() -> (r: VehiclePosition)
    ensures
        r.deep_view() == all_values_positions_2(),
{
    VehiclePosition {
        trip: None,
        position: None,
        current_stop_sequence: None,
        current_status: None,
        timestamp: None,
        congestion_level: None,
        stop_id: None,
        vehicle: None,
        occupancy_status: None,
        occupancy_percentage: None,
        multi_carriage_details: Vec::new(),
    }
}

/// A vehicle position with every field set, one with empty nested messages, and one with nothing set.
pub open spec fn all_values_positions() -> Seq<SpecVehiclePosition> {
    seq![all_values_positions_0(), all_values_positions_1(), all_values_positions_2()]
}

fn all_values_positions_values() -> (r: Vec<VehiclePosition>)
    ensures
        r.deep_view() == all_values_positions(),
{
    let mut r: Vec<VehiclePosition> = Vec::new();
    push_deep(&mut r, all_values_positions_0_value());
    push_deep(&mut r, all_values_positions_1_value());
    push_deep(&mut r, all_values_positions_2_value());
    assert(r.deep_view() =~= all_values_positions());
    r
}

/// A feed of three vehicle positions that share one id.
pub open spec fn duplicate_ids_feed() -> SpecFeedMessage {
    SpecFeedMessage {
        header: SpecFeedHeader {
            gtfs_realtime_version: "2.0"@,
            incrementality: None,
            timestamp: None,
            feed_version: None,
        },
        entity: seq![
            SpecFeedEntity {
                id: "\")); stop(\"identifier with r code executed!\")#"@,
                is_deleted: None,
                trip_update: None,
                vehicle: Some(SpecVehiclePosition {
                    trip: None,
                    position: None,
                    current_stop_sequence: None,
                    current_status: None,
                    timestamp: None,
                    congestion_level: None,
                    stop_id: None,
                    vehicle: None,
                    occupancy_status: None,
                    occupancy_percentage: None,
                    multi_carriage_details: Seq::empty(),
                }),
                alert: None,
                shape: None,
                stop: None,
                trip_modifications: None,
            },
            SpecFeedEntity {
                id: "\")); stop(\"identifier with r code executed!\")#"@,
                is_deleted: None,
                trip_update: None,
                vehicle: Some(SpecVehiclePosition {
                    trip: None,
                    position: None,
                    current_stop_sequence: None,
                    current_status: None,
                    timestamp: None,
                    congestion_level: None,
                    stop_id: None,
                    vehicle: None,
                    occupancy_status: None,
                    occupancy_percentage: None,
                    multi_carriage_details: Seq::empty(),
                }),
                alert: None,
                shape: None,
                stop: None,
                trip_modifications: None,
            },
            SpecFeedEntity {
                id: "\")); stop(\"identifier with r code executed!\")#"@,
                is_deleted: None,
                trip_update: None,
                vehicle: Some(SpecVehiclePosition {
                    trip: None,
                    position: None,
                    current_stop_sequence: None,
                    current_status: None,
                    timestamp: None,
                    congestion_level: None,
                    stop_id: None,
                    vehicle: None,
                    occupancy_status: None,
                    occupancy_percentage: None,
                    multi_carriage_details: Seq::empty(),
                }),
                alert: None,
                shape: None,
                stop: None,
                trip_modifications: None,
            },
        ],
    }
}

fn duplicate_ids_feed_value() -> (r: FeedMessage)
    ensures
        r.deep_view() == duplicate_ids_feed(),
{
    let r = FeedMessage {
        header: FeedHeader {
            gtfs_realtime_version: "2.0".to_owned(),
            incrementality: None,
            timestamp: None,
            feed_version: None,
        },
        entity: vec![
            FeedEntity {
                id: "\")); stop(\"identifier with r code executed!\")#".to_owned(),
                is_deleted: None,
                trip_update: None,
                vehicle: Some(VehiclePosition {
                    trip: None,
                    position: None,
                    current_stop_sequence: None,
                    current_status: None,
                    timestamp: None,
                    congestion_level: None,
                    stop_id: None,
                    vehicle: None,
                    occupancy_status: None,
                    occupancy_percentage: None,
                    multi_carriage_details: Vec::new(),
                }),
                alert: None,
                shape: None,
                stop: None,
                trip_modifications: None,
            },
            FeedEntity {
                id: "\")); stop(\"identifier with r code executed!\")#".to_owned(),
                is_deleted: None,
                trip_update: None,
                vehicle: Some(VehiclePosition {
                    trip: None,
                    position: None,
                    current_stop_sequence: None,
                    current_status: None,
                    timestamp: None,
                    congestion_level: None,
                    stop_id: None,
                    vehicle: None,
                    occupancy_status: None,
                    occupancy_percentage: None,
                    multi_carriage_details: Vec::new(),
                }),
                alert: None,
                shape: None,
                stop: None,
                trip_modifications: None,
            },
            FeedEntity {
                id: "\")); stop(\"identifier with r code executed!\")#".to_owned(),
                is_deleted: None,
                trip_update: None,
                vehicle: Some(VehiclePosition {
                    trip: None,
                    position: None,
                    current_stop_sequence: None,
                    current_status: None,
                    timestamp: None,
                    congestion_level: None,
                    stop_id: None,
                    vehicle: None,
                    occupancy_status: None,
                    occupancy_percentage: None,
                    multi_carriage_details: Vec::new(),
                }),
                alert: None,
                shape: None,
                stop: None,
                trip_modifications: None,
            },
        ],
    };
    assert(r.deep_view() =~~= duplicate_ids_feed());
    r
}

/// An empty feed that is marked as differential.
pub open spec fn differential_feed() -> SpecFeedMessage {
    SpecFeedMessage {
        header: SpecFeedHeader {
            gtfs_realtime_version: "2.0"@,
            incrementality: Some(1),
            timestamp: Some(1774967578),
            feed_version: None,
        },
        entity: Seq::empty(),
    }
}

fn differential_feed_value() -> (r: FeedMessage)
    ensures
        r.deep_view() == differential_feed(),
{
    let r = FeedMessage {
        header: FeedHeader {
            gtfs_realtime_version: "2.0".to_owned(),
            incrementality: Some(1),
            timestamp: Some(1774967578),
            feed_version: None,
        },
        entity: Vec::new(),
    };
    assert(r.deep_view() =~~= differential_feed());
    r
}


fn no_positions() -> (r: Vec<VehiclePosition>)
    ensures
        r.deep_view() == Seq::<SpecVehiclePosition>::empty(),
        r@.len() == 0,
{
    let r: Vec<VehiclePosition> = Vec::new();
    assert(r.deep_view() =~= Seq::<SpecVehiclePosition>::empty());
    r
}

fn no_alerts() -> (r: Vec<Alert>)
    ensures
        r.deep_view() == Seq::<SpecAlert>::empty(),
        r@.len() == 0,
{
    let r: Vec<Alert> = Vec::new();
    assert(r.deep_view() =~= Seq::<SpecAlert>::empty());
    r
}

fn no_updates() -> (r: Vec<TripUpdate>)
    ensures
        r.deep_view() == Seq::<SpecTripUpdate>::empty(),
        r@.len() == 0,
{
    let r: Vec<TripUpdate> = Vec::new();
    assert(r.deep_view() =~= Seq::<SpecTripUpdate>::empty());
    r
}

/// A vehicle positions feed in which a trip has a schedule relationship that
/// the schema does not declare.
pub fn test_data_invalid_enum_positions() -> (r: Vec<u8>)
    ensures
        r@ == feed_message_encoded(
            sample_feed(invalid_enum_positions(), Seq::empty(), Seq::empty()),
        ),
{
    sample_feed_bytes(invalid_enum_positions_values(), no_alerts(), no_updates())
}

/// An alerts feed whose rows multiply: one alert with two active periods, two
/// informed entities and two languages, one with some translations missing,
/// one in a single language, one with nothing to unfold, and one with nothing
/// set.
pub fn test_data_alert_unwrapping() -> (r: Vec<u8>)
    ensures
        r@ == feed_message_encoded(
            sample_feed(Seq::empty(), alert_unwrapping_alerts(), Seq::empty()),
        ),
{
    sample_feed_bytes(no_positions(), alert_unwrapping_alerts_values(), no_updates())
}

/// A trip updates feed with two, one and no stop time updates.
pub fn test_data_update_unwrapping() -> (r: Vec<u8>)
    ensures
        r@ == feed_message_encoded(
            sample_feed(Seq::empty(), Seq::empty(), update_unwrapping_updates()),
        ),
{
    sample_feed_bytes(no_positions(), no_alerts(), update_unwrapping_updates_values())
}

/// A vehicle positions feed with every field set in one position.
pub fn test_data_positions_all_values() -> (r: Vec<u8>)
    ensures
        r@ == feed_message_encoded(
            sample_feed(all_values_positions(), Seq::empty(), Seq::empty()),
        ),
{
    sample_feed_bytes(all_values_positions_values(), no_alerts(), no_updates())
}

/// A vehicle positions feed in which three entities share one id.
pub fn test_data_duplicate_ids_positions() -> (r: Vec<u8>)
    ensures
        r@ == feed_message_encoded(duplicate_ids_feed()),
{
    let m = duplicate_ids_feed_value();
    let mut buf: Vec<u8> = Vec::new();
    encode_feed_message(&m, &mut buf);
    assert(buf@ =~= feed_message_encoded(duplicate_ids_feed()));
    buf
}

/// An empty feed that is marked as differential.
pub fn test_data_differential_feed() -> (r: Vec<u8>)
    ensures
        r@ == feed_message_encoded(differential_feed()),
{
    let m = differential_feed_value();
    let mut buf: Vec<u8> = Vec::new();
    encode_feed_message(&m, &mut buf);
    assert(buf@ =~= feed_message_encoded(differential_feed()));
    buf
}

/// The value of the `i`-th variant of `e`, if it has that many.
pub open spec fn variant_value(e: ProtoEnum, i: nat) -> Option<i32> {
    if i < enum_variants(e).len() {
        Some(enum_variants(e)[i as int].0)
    } else {
        None
    }
}

/// The name under which a reader gives back the `i`-th variant of `e`; none
/// past the last variant.
pub open spec fn expected_label(e: ProtoEnum, i: nat) -> Option<Seq<char>> {
    match variant_value(e, i) {
        Some(v) => label_of(enum_variants(e), v),
        None => None,
    }
}

/// The largest number of variants among `es`.
pub open spec fn most_variants(es: Seq<ProtoEnum>) -> nat
    decreases es.len(),
{
    if es.len() == 0 {
        0
    } else {
        let rest = most_variants(es.drop_last());
        if enum_variants(es.last()).len() > rest {
            enum_variants(es.last()).len()
        } else {
            rest
        }
    }
}

/// One more than the largest number of variants among `es`: enough records
/// to hold each variant of each of them, and one with none set.
fn roundtrip_count(es: &Vec<ProtoEnum>) -> (r: usize)
    ensures
        r == most_variants(es@) + 1,
        r <= 13,
{
    let mut most: usize = 0;
    let mut i: usize = 0;
    while i < es.len()
        invariant
            0 <= i <= es@.len(),
            most == most_variants(es@.take(i as int)),
            most <= 12,
        decreases es@.len() - i,
    {
        assert(es@.take(i + 1).drop_last() =~= es@.take(i as int));
        assert(enum_variants(es@[i as int]).len() <= 12);
        let n = variants(es[i]).len();
        if n > most {
            most = n;
        }
        i += 1;
    }
    assert(es@.take(es@.len() as int) =~= es@);
    most + 1
}

pub open spec fn opt_str_view(o: Option<&str>) -> Option<Seq<char>> {
    match o {
        Some(s) => Some(s@),
        None => None,
    }
}

/// A named list of expected names: the name of the variant that the record
/// of each index holds, or none.
pub struct LabelColumn {
    pub name: &'static str,
    pub labels: Vec<Option<&'static str>>,
}

/// `c` is named `name` and lists, for each of `n` records, the name of the
/// variant of `e` that it holds.
pub open spec fn column_of(c: LabelColumn, name: Seq<char>, e: ProtoEnum, n: nat) -> bool {
    &&& c.name@ == name
    &&& c.labels@.len() == n
    &&& forall|i: int| 0 <= i < n ==> opt_str_view(#[trigger] c.labels@[i]) == expected_label(e, i as nat)
}

fn label_column(name: &'static str, e: ProtoEnum, n: usize) -> (r: LabelColumn)
    ensures
        column_of(r, name@, e, n as nat),
{
    let mut labels: Vec<Option<&'static str>> = Vec::new();
    let mut i: usize = 0;
    while i < n
        invariant
            0 <= i <= n,
            labels@.len() == i,
            forall|k: int| 0 <= k < i ==> opt_str_view(#[trigger] labels@[k]) == expected_label(e, k as nat),
        decreases n - i,
    {
        let l = match get_or_none(e, i) {
            Some(v) => as_str_name_t(e, v),
            None => None,
        };
        labels.push(l);
        i += 1;
    }
    LabelColumn { name, labels }
}

fn enum_list_positions() -> (r: Vec<ProtoEnum>)
    ensures
        r@ == roundtrip_position_enums(),
{
    vec![
        ProtoEnum::VehicleStopStatus,
        ProtoEnum::OccupancyStatus,
        ProtoEnum::CongestionLevel,
        ProtoEnum::TripScheduleRelationship,
        ProtoEnum::WheelchairAccessible,
    ]
}

/// The enumerations that a vehicle position holds.
pub open spec fn roundtrip_position_enums() -> Seq<ProtoEnum> {
    seq![
        ProtoEnum::VehicleStopStatus,
        ProtoEnum::OccupancyStatus,
        ProtoEnum::CongestionLevel,
        ProtoEnum::TripScheduleRelationship,
        ProtoEnum::WheelchairAccessible,
    ]
}

/// The `i`-th vehicle position of the enumeration round trip: a fixed record
/// in which each enumeration holds its `i`-th variant, or nothing past its
/// last one.
pub open spec fn roundtrip_position(i: nat) -> SpecVehiclePosition {
    SpecVehiclePosition {
        trip: Some(SpecTripDescriptor {
            trip_id: Some("42"@),
            start_time: Some("06:00:00"@),
            start_date: Some("20250101"@),
            schedule_relationship: variant_value(ProtoEnum::TripScheduleRelationship, i),
            route_id: Some("42"@),
            direction_id: Some(0),
            modified_trip: None,
        }),
        position: Some(SpecPosition {
            latitude: 1108702134,
            longitude: 3270786810,
            bearing: None,
            odometer: None,
            speed: None,
        }),
        current_stop_sequence: Some(3),
        current_status: variant_value(ProtoEnum::VehicleStopStatus, i),
        timestamp: Some(1774967570),
        congestion_level: variant_value(ProtoEnum::CongestionLevel, i),
        stop_id: Some("42"@),
        vehicle: Some(SpecVehicleDescriptor {
            id: Some("42"@),
            label: Some("42"@),
            license_plate: Some("42"@),
            wheelchair_accessible: variant_value(ProtoEnum::WheelchairAccessible, i),
        }),
        occupancy_status: variant_value(ProtoEnum::OccupancyStatus, i),
        occupancy_percentage: None,
        multi_carriage_details: Seq::empty(),
    }
}

fn roundtrip_position_value(i: usize) -> (r: VehiclePosition)
    ensures
        r.deep_view() == roundtrip_position(i as nat),
{
    VehiclePosition {
        trip: Some(TripDescriptor {
            trip_id: Some("42".to_owned()),
            start_time: Some("06:00:00".to_owned()),
            start_date: Some("20250101".to_owned()),
            schedule_relationship: get_or_none(ProtoEnum::TripScheduleRelationship, i),
            route_id: Some("42".to_owned()),
            direction_id: Some(0),
            modified_trip: None,
        }),
        position: Some(Position {
            latitude: 1108702134,
            longitude: 3270786810,
            bearing: None,
            odometer: None,
            speed: None,
        }),
        current_stop_sequence: Some(3),
        current_status: get_or_none(ProtoEnum::VehicleStopStatus, i),
        timestamp: Some(1774967570),
        congestion_level: get_or_none(ProtoEnum::CongestionLevel, i),
        stop_id: Some("42".to_owned()),
        vehicle: Some(VehicleDescriptor {
            id: Some("42".to_owned()),
            label: Some("42".to_owned()),
            license_plate: Some("42".to_owned()),
            wheelchair_accessible: get_or_none(ProtoEnum::WheelchairAccessible, i),
        }),
        occupancy_status: get_or_none(ProtoEnum::OccupancyStatus, i),
        occupancy_percentage: None,
        multi_carriage_details: Vec::new(),
    }
}

/// A vehicle positions feed in which each enumeration takes each of its
/// variants, with the names that a reader should give back for them.
pub fn test_data_enum_roundtrip_positions() -> (r: (Vec<u8>, Vec<LabelColumn>))
    ensures
        ({
            let n = most_variants(roundtrip_position_enums()) + 1;
            &&& r.0@ == feed_message_encoded(
                sample_feed(
                    Seq::new(n, |i: int| roundtrip_position(i as nat)),
                    Seq::empty(),
                    Seq::empty(),
                ),
            )
            &&& r.1@.len() == 5
            &&& column_of(r.1@[0], "schedule_relationship"@, ProtoEnum::TripScheduleRelationship, n)
            &&& column_of(r.1@[1], "vehicle_wheelchair_accessible"@, ProtoEnum::WheelchairAccessible, n)
            &&& column_of(r.1@[2], "current_status"@, ProtoEnum::VehicleStopStatus, n)
            &&& column_of(r.1@[3], "congestion_level"@, ProtoEnum::CongestionLevel, n)
            &&& column_of(r.1@[4], "occupancy_status"@, ProtoEnum::OccupancyStatus, n)
        }),
{
    let n = roundtrip_count(&enum_list_positions());
    let ghost want = Seq::new(n as nat, |i: int| roundtrip_position(i as nat));
    let mut values: Vec<VehiclePosition> = Vec::new();
    let mut i: usize = 0;
    while i < n
        invariant
            0 <= i <= n,
            want == Seq::new(n as nat, |i: int| roundtrip_position(i as nat)),
            values.deep_view() == want.take(i as int),
        decreases n - i,
    {
        push_deep(&mut values, roundtrip_position_value(i));
        assert(values.deep_view() =~= want.take(i + 1));
        i += 1;
    }
    assert(want.take(n as int) =~= want);
    assert(values@.len() == values.deep_view().len());
    let mut columns: Vec<LabelColumn> = Vec::new();
    columns.push(label_column("schedule_relationship", ProtoEnum::TripScheduleRelationship, n));
    columns.push(label_column("vehicle_wheelchair_accessible", ProtoEnum::WheelchairAccessible, n));
    columns.push(label_column("current_status", ProtoEnum::VehicleStopStatus, n));
    columns.push(label_column("congestion_level", ProtoEnum::CongestionLevel, n));
    columns.push(label_column("occupancy_status", ProtoEnum::OccupancyStatus, n));
    let bytes = sample_feed_bytes(values, no_alerts(), no_updates());
    (bytes, columns)
}

/// The enumerations that a trip update holds.
pub open spec fn roundtrip_update_enums() -> Seq<ProtoEnum> {
    seq![
        ProtoEnum::TripScheduleRelationship,
        ProtoEnum::StopScheduleRelationship,
        ProtoEnum::OccupancyStatus,
        ProtoEnum::WheelchairAccessible,
    ]
}

fn enum_list_updates() -> (r: Vec<ProtoEnum>)
    ensures
        r@ == roundtrip_update_enums(),
{
    vec![
        ProtoEnum::TripScheduleRelationship,
        ProtoEnum::StopScheduleRelationship,
        ProtoEnum::OccupancyStatus,
        ProtoEnum::WheelchairAccessible,
    ]
}

/// The `i`-th trip update of the enumeration round trip, with a single stop
/// time update so that it stays one row.
pub open spec fn roundtrip_update(i: nat) -> SpecTripUpdate {
    SpecTripUpdate {
        trip: SpecTripDescriptor {
            trip_id: Some("42"@),
            start_time: Some("06:00:00"@),
            start_date: Some("20250101"@),
            schedule_relationship: variant_value(ProtoEnum::TripScheduleRelationship, i),
            route_id: Some("42"@),
            direction_id: Some(0),
            modified_trip: None,
        },
        stop_time_update: seq![
            SpecStopTimeUpdate {
                stop_sequence: Some(0),
                arrival: None,
                departure: None,
                stop_id: Some("fortytwo"@),
                schedule_relationship: variant_value(ProtoEnum::StopScheduleRelationship, i),
                stop_time_properties: None,
                departure_occupancy_status: variant_value(ProtoEnum::OccupancyStatus, i),
            },
        ],
        vehicle: Some(SpecVehicleDescriptor {
            id: Some("42"@),
            label: Some("42"@),
            license_plate: Some("42"@),
            wheelchair_accessible: variant_value(ProtoEnum::WheelchairAccessible, i),
        }),
        timestamp: Some(1774967578),
        delay: None,
        trip_properties: None,
    }
}

fn roundtrip_update_value(i: usize) -> (r: TripUpdate)
    ensures
        r.deep_view() == roundtrip_update(i as nat),
{
    let r = TripUpdate {
        trip: TripDescriptor {
            trip_id: Some("42".to_owned()),
            start_time: Some("06:00:00".to_owned()),
            start_date: Some("20250101".to_owned()),
            schedule_relationship: get_or_none(ProtoEnum::TripScheduleRelationship, i),
            route_id: Some("42".to_owned()),
            direction_id: Some(0),
            modified_trip: None,
        },
        stop_time_update: vec![
            StopTimeUpdate {
                stop_sequence: Some(0),
                arrival: None,
                departure: None,
                stop_id: Some("fortytwo".to_owned()),
                schedule_relationship: get_or_none(ProtoEnum::StopScheduleRelationship, i),
                stop_time_properties: None,
                departure_occupancy_status: get_or_none(ProtoEnum::OccupancyStatus, i),
            },
        ],
        vehicle: Some(VehicleDescriptor {
            id: Some("42".to_owned()),
            label: Some("42".to_owned()),
            license_plate: Some("42".to_owned()),
            wheelchair_accessible: get_or_none(ProtoEnum::WheelchairAccessible, i),
        }),
        timestamp: Some(1774967578),
        delay: None,
        trip_properties: None,
    };
    assert(r.deep_view() =~~= roundtrip_update(i as nat));
    r
}

/// A trip updates feed in which each enumeration takes each of its variants,
/// with the names that a reader should give back for them.
pub fn test_data_enum_roundtrip_updates() -> (r: (Vec<u8>, Vec<LabelColumn>))
    ensures
        ({
            let n = most_variants(roundtrip_update_enums()) + 1;
            &&& r.0@ == feed_message_encoded(
                sample_feed(
                    Seq::empty(),
                    Seq::empty(),
                    Seq::new(n, |i: int| roundtrip_update(i as nat)),
                ),
            )
            &&& r.1@.len() == 4
            &&& column_of(r.1@[0], "trip_schedule_relationship"@, ProtoEnum::TripScheduleRelationship, n)
            &&& column_of(r.1@[1], "wheelchair_accessible"@, ProtoEnum::WheelchairAccessible, n)
            &&& column_of(r.1@[2], "departure_occupancy_status"@, ProtoEnum::OccupancyStatus, n)
            &&& column_of(r.1@[3], "stop_schedule_relationship"@, ProtoEnum::StopScheduleRelationship, n)
        }),
{
    let n = roundtrip_count(&enum_list_updates());
    let ghost want = Seq::new(n as nat, |i: int| roundtrip_update(i as nat));
    let mut values: Vec<TripUpdate> = Vec::new();
    let mut i: usize = 0;
    while i < n
        invariant
            0 <= i <= n,
            want == Seq::new(n as nat, |i: int| roundtrip_update(i as nat)),
            values.deep_view() == want.take(i as int),
        decreases n - i,
    {
        push_deep(&mut values, roundtrip_update_value(i));
        assert(values.deep_view() =~= want.take(i + 1));
        i += 1;
    }
    assert(want.take(n as int) =~= want);
    assert(values@.len() == values.deep_view().len());
    let mut columns: Vec<LabelColumn> = Vec::new();
    columns.push(label_column("trip_schedule_relationship", ProtoEnum::TripScheduleRelationship, n));
    columns.push(label_column("wheelchair_accessible", ProtoEnum::WheelchairAccessible, n));
    columns.push(label_column("departure_occupancy_status", ProtoEnum::OccupancyStatus, n));
    columns.push(label_column("stop_schedule_relationship", ProtoEnum::StopScheduleRelationship, n));
    let bytes = sample_feed_bytes(no_positions(), no_alerts(), values);
    (bytes, columns)
}

/// The enumerations that an alert holds.
pub open spec fn roundtrip_alert_enums() -> Seq<ProtoEnum> {
    seq![
        ProtoEnum::Cause,
        ProtoEnum::Effect,
        ProtoEnum::SeverityLevel,
        ProtoEnum::TripScheduleRelationship,
    ]
}

fn enum_list_alerts() -> (r: Vec<ProtoEnum>)
    ensures
        r@ == roundtrip_alert_enums(),
{
    vec![
        ProtoEnum::Cause,
        ProtoEnum::Effect,
        ProtoEnum::SeverityLevel,
        ProtoEnum::TripScheduleRelationship,
    ]
}

/// The `i`-th alert of the enumeration round trip: one active period and one
/// informed entity, whose trip holds the schedule relationship.
pub open spec fn roundtrip_alert(i: nat) -> SpecAlert {
    SpecAlert {
        active_period: seq![SpecTimeRange { start: Some(1774957578), end: Some(1774967578) }],
        informed_entity: seq![
            SpecEntitySelector {
                agency_id: None,
                route_id: None,
                route_type: None,
                trip: Some(SpecTripDescriptor {
                    trip_id: None,
                    start_time: None,
                    start_date: None,
                    schedule_relationship: variant_value(ProtoEnum::TripScheduleRelationship, i),
                    route_id: None,
                    direction_id: None,
                    modified_trip: None,
                }),
                stop_id: None,
                direction_id: None,
            },
        ],
        cause: variant_value(ProtoEnum::Cause, i),
        effect: variant_value(ProtoEnum::Effect, i),
        url: None,
        header_text: None,
        description_text: None,
        tts_header_text: None,
        tts_description_text: None,
        severity_level: variant_value(ProtoEnum::SeverityLevel, i),
        image: None,
        image_alternative_text: None,
        cause_detail: None,
        effect_detail: None,
    }
}

fn roundtrip_alert_value(i: usize) -> (r: Alert)
    ensures
        r.deep_view() == roundtrip_alert(i as nat),
{
    let r = Alert {
        active_period: vec![TimeRange { start: Some(1774957578), end: Some(1774967578) }],
        informed_entity: vec![
            EntitySelector {
                agency_id: None,
                route_id: None,
                route_type: None,
                trip: Some(TripDescriptor {
                    trip_id: None,
                    start_time: None,
                    start_date: None,
                    schedule_relationship: get_or_none(ProtoEnum::TripScheduleRelationship, i),
                    route_id: None,
                    direction_id: None,
                    modified_trip: None,
                }),
                stop_id: None,
                direction_id: None,
            },
        ],
        cause: get_or_none(ProtoEnum::Cause, i),
        effect: get_or_none(ProtoEnum::Effect, i),
        url: None,
        header_text: None,
        description_text: None,
        tts_header_text: None,
        tts_description_text: None,
        severity_level: get_or_none(ProtoEnum::SeverityLevel, i),
        image: None,
        image_alternative_text: None,
        cause_detail: None,
        effect_detail: None,
    };
    assert(r.deep_view() =~~= roundtrip_alert(i as nat));
    r
}

/// An alerts feed in which each enumeration takes each of its variants, with
/// the names that a reader should give back for them.
pub fn test_data_enum_roundtrip_alerts() -> (r: (Vec<u8>, Vec<LabelColumn>))
    ensures
        ({
            let n = most_variants(roundtrip_alert_enums()) + 1;
            &&& r.0@ == feed_message_encoded(
                sample_feed(
                    Seq::empty(),
                    Seq::new(n, |i: int| roundtrip_alert(i as nat)),
                    Seq::empty(),
                ),
            )
            &&& r.1@.len() == 4
            &&& column_of(r.1@[0], "trip_schedule_relationship"@, ProtoEnum::TripScheduleRelationship, n)
            &&& column_of(r.1@[1], "cause"@, ProtoEnum::Cause, n)
            &&& column_of(r.1@[2], "effect"@, ProtoEnum::Effect, n)
            &&& column_of(r.1@[3], "severity_level"@, ProtoEnum::SeverityLevel, n)
        }),
{
    let n = roundtrip_count(&enum_list_alerts());
    let ghost want = Seq::new(n as nat, |i: int| roundtrip_alert(i as nat));
    let mut values: Vec<Alert> = Vec::new();
    let mut i: usize = 0;
    while i < n
        invariant
            0 <= i <= n,
            want == Seq::new(n as nat, |i: int| roundtrip_alert(i as nat)),
            values.deep_view() == want.take(i as int),
        decreases n - i,
    {
        push_deep(&mut values, roundtrip_alert_value(i));
        assert(values.deep_view() =~= want.take(i + 1));
        i += 1;
    }
    assert(want.take(n as int) =~= want);
    assert(values@.len() == values.deep_view().len());
    let mut columns: Vec<LabelColumn> = Vec::new();
    columns.push(label_column("trip_schedule_relationship", ProtoEnum::TripScheduleRelationship, n));
    columns.push(label_column("cause", ProtoEnum::Cause, n));
    columns.push(label_column("effect", ProtoEnum::Effect, n));
    columns.push(label_column("severity_level", ProtoEnum::SeverityLevel, n));
    let bytes = sample_feed_bytes(no_positions(), values, no_updates());
    (bytes, columns)
}

} // verus!
