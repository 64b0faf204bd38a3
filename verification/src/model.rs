//! The messages of the GTFS-realtime schema, and the value each stands for.
//! Optional fields are `Option`s, repeated fields `Vec`s; float fields hold
//! their IEEE-754 bits.

use crate::raw::RawMessage;
use vstd::prelude::*;

verus! {

/// A GTFS-realtime feed: its header and its entities.
pub struct FeedMessage {
    pub header: FeedHeader,
    pub entity: Vec<FeedEntity>,
}

/// The value of a `FeedMessage`.
#[verifier::ext_equal]
pub struct SpecFeedMessage {
    pub header: SpecFeedHeader,
    pub entity: Seq<SpecFeedEntity>,
}

impl DeepView for FeedMessage {
    type V = SpecFeedMessage;

    open spec fn deep_view(&self) -> SpecFeedMessage {
        SpecFeedMessage {
            header: self.header.deep_view(),
            entity: self.entity.deep_view(),
        }
    }
}

/// A `FeedMessage` with no field set.
pub open spec fn feed_message_default() -> SpecFeedMessage {
    SpecFeedMessage {
        header: feed_header_default(),
        entity: Seq::empty(),
    }
}

impl FeedMessage {
    pub fn new() -> (r: Self)
        ensures
            r.deep_view() == feed_message_default(),
    {
        FeedMessage {
            header: FeedHeader::new(),
            entity: Vec::new(),
        }
    }
}

/// Metadata of a feed.
pub struct FeedHeader {
    pub gtfs_realtime_version: String,
    pub incrementality: Option<i32>,
    pub timestamp: Option<u64>,
    pub feed_version: Option<String>,
}

/// The value of a `FeedHeader`.
#[verifier::ext_equal]
pub struct SpecFeedHeader {
    pub gtfs_realtime_version: Seq<char>,
    pub incrementality: Option<i32>,
    pub timestamp: Option<u64>,
    pub feed_version: Option<Seq<char>>,
}

impl DeepView for FeedHeader {
    type V = SpecFeedHeader;

    open spec fn deep_view(&self) -> SpecFeedHeader {
        SpecFeedHeader {
            gtfs_realtime_version: self.gtfs_realtime_version@,
            incrementality: self.incrementality,
            timestamp: self.timestamp,
            feed_version: self.feed_version.deep_view(),
        }
    }
}

/// A `FeedHeader` with no field set.
pub open spec fn feed_header_default() -> SpecFeedHeader {
    SpecFeedHeader {
        gtfs_realtime_version: Seq::empty(),
        incrementality: None,
        timestamp: None,
        feed_version: None,
    }
}

impl FeedHeader {
    pub fn new() -> (r: Self)
        ensures
            r.deep_view() == feed_header_default(),
    {
        FeedHeader {
            gtfs_realtime_version: String::new(),
            incrementality: None,
            timestamp: None,
            feed_version: None,
        }
    }
}

/// One entity of a feed: a trip update, a vehicle position, an alert, a shape, a stop or trip modifications.
pub struct FeedEntity {
    pub id: String,
    pub is_deleted: Option<bool>,
    pub trip_update: Option<TripUpdate>,
    pub vehicle: Option<VehiclePosition>,
    pub alert: Option<Alert>,
    pub shape: Option<RawMessage>,
    pub stop: Option<RawMessage>,
    pub trip_modifications: Option<TripModifications>,
}

/// The value of a `FeedEntity`.
#[verifier::ext_equal]
pub struct SpecFeedEntity {
    pub id: Seq<char>,
    pub is_deleted: Option<bool>,
    pub trip_update: Option<SpecTripUpdate>,
    pub vehicle: Option<SpecVehiclePosition>,
    pub alert: Option<SpecAlert>,
    pub shape: Option<Seq<u8>>,
    pub stop: Option<Seq<u8>>,
    pub trip_modifications: Option<SpecTripModifications>,
}

impl DeepView for FeedEntity {
    type V = SpecFeedEntity;

    open spec fn deep_view(&self) -> SpecFeedEntity {
        SpecFeedEntity {
            id: self.id@,
            is_deleted: self.is_deleted,
            trip_update: self.trip_update.deep_view(),
            vehicle: self.vehicle.deep_view(),
            alert: self.alert.deep_view(),
            shape: self.shape.deep_view(),
            stop: self.stop.deep_view(),
            trip_modifications: self.trip_modifications.deep_view(),
        }
    }
}

/// A `FeedEntity` with no field set.
pub open spec fn feed_entity_default() -> SpecFeedEntity {
    SpecFeedEntity {
        id: Seq::empty(),
        is_deleted: None,
        trip_update: None,
        vehicle: None,
        alert: None,
        shape: None,
        stop: None,
        trip_modifications: None,
    }
}

impl FeedEntity {
    pub fn new() -> (r: Self)
        ensures
            r.deep_view() == feed_entity_default(),
    {
        FeedEntity {
            id: String::new(),
            is_deleted: None,
            trip_update: None,
            vehicle: None,
            alert: None,
            shape: None,
            stop: None,
            trip_modifications: None,
        }
    }
}

/// Realtime progress of a trip: its descriptor and the updates of its stop times.
pub struct TripUpdate {
    pub trip: TripDescriptor,
    pub stop_time_update: Vec<StopTimeUpdate>,
    pub vehicle: Option<VehicleDescriptor>,
    pub timestamp: Option<u64>,
    pub delay: Option<i32>,
    pub trip_properties: Option<RawMessage>,
}

/// The value of a `TripUpdate`.
#[verifier::ext_equal]
pub struct SpecTripUpdate {
    pub trip: SpecTripDescriptor,
    pub stop_time_update: Seq<SpecStopTimeUpdate>,
    pub vehicle: Option<SpecVehicleDescriptor>,
    pub timestamp: Option<u64>,
    pub delay: Option<i32>,
    pub trip_properties: Option<Seq<u8>>,
}

impl DeepView for TripUpdate {
    type V = SpecTripUpdate;

    open spec fn deep_view(&self) -> SpecTripUpdate {
        SpecTripUpdate {
            trip: self.trip.deep_view(),
            stop_time_update: self.stop_time_update.deep_view(),
            vehicle: self.vehicle.deep_view(),
            timestamp: self.timestamp,
            delay: self.delay,
            trip_properties: self.trip_properties.deep_view(),
        }
    }
}

/// A `TripUpdate` with no field set.
pub open spec fn trip_update_default() -> SpecTripUpdate {
    SpecTripUpdate {
        trip: trip_descriptor_default(),
        stop_time_update: Seq::empty(),
        vehicle: None,
        timestamp: None,
        delay: None,
        trip_properties: None,
    }
}

impl TripUpdate {
    pub fn new() -> (r: Self)
        ensures
            r.deep_view() == trip_update_default(),
    {
        TripUpdate {
            trip: TripDescriptor::new(),
            stop_time_update: Vec::new(),
            vehicle: None,
            timestamp: None,
            delay: None,
            trip_properties: None,
        }
    }
}

/// Timing of an arrival or a departure.
pub struct StopTimeEvent {
    pub delay: Option<i32>,
    pub time: Option<i64>,
    pub uncertainty: Option<i32>,
    pub scheduled_time: Option<i64>,
}

/// The value of a `StopTimeEvent`.
#[verifier::ext_equal]
pub struct SpecStopTimeEvent {
    pub delay: Option<i32>,
    pub time: Option<i64>,
    pub uncertainty: Option<i32>,
    pub scheduled_time: Option<i64>,
}

impl DeepView for StopTimeEvent {
    type V = SpecStopTimeEvent;

    open spec fn deep_view(&self) -> SpecStopTimeEvent {
        SpecStopTimeEvent {
            delay: self.delay,
            time: self.time,
            uncertainty: self.uncertainty,
            scheduled_time: self.scheduled_time,
        }
    }
}

/// A `StopTimeEvent` with no field set.
pub open spec fn stop_time_event_default() -> SpecStopTimeEvent {
    SpecStopTimeEvent {
        delay: None,
        time: None,
        uncertainty: None,
        scheduled_time: None,
    }
}

impl StopTimeEvent {
    pub fn new() -> (r: Self)
        ensures
            r.deep_view() == stop_time_event_default(),
    {
        StopTimeEvent {
            delay: None,
            time: None,
            uncertainty: None,
            scheduled_time: None,
        }
    }
}

/// Realtime update of one stop time of a trip.
pub struct StopTimeUpdate {
    pub stop_sequence: Option<u32>,
    pub arrival: Option<StopTimeEvent>,
    pub departure: Option<StopTimeEvent>,
    pub stop_id: Option<String>,
    pub schedule_relationship: Option<i32>,
    pub stop_time_properties: Option<RawMessage>,
    pub departure_occupancy_status: Option<i32>,
}

/// The value of a `StopTimeUpdate`.
#[verifier::ext_equal]
pub struct SpecStopTimeUpdate {
    pub stop_sequence: Option<u32>,
    pub arrival: Option<SpecStopTimeEvent>,
    pub departure: Option<SpecStopTimeEvent>,
    pub stop_id: Option<Seq<char>>,
    pub schedule_relationship: Option<i32>,
    pub stop_time_properties: Option<Seq<u8>>,
    pub departure_occupancy_status: Option<i32>,
}

impl DeepView for StopTimeUpdate {
    type V = SpecStopTimeUpdate;

    open spec fn deep_view(&self) -> SpecStopTimeUpdate {
        SpecStopTimeUpdate {
            stop_sequence: self.stop_sequence,
            arrival: self.arrival.deep_view(),
            departure: self.departure.deep_view(),
            stop_id: self.stop_id.deep_view(),
            schedule_relationship: self.schedule_relationship,
            stop_time_properties: self.stop_time_properties.deep_view(),
            departure_occupancy_status: self.departure_occupancy_status,
        }
    }
}

/// A `StopTimeUpdate` with no field set.
pub open spec fn stop_time_update_default() -> SpecStopTimeUpdate {
    SpecStopTimeUpdate {
        stop_sequence: None,
        arrival: None,
        departure: None,
        stop_id: None,
        schedule_relationship: None,
        stop_time_properties: None,
        departure_occupancy_status: None,
    }
}

impl StopTimeUpdate {
    pub fn new() -> (r: Self)
        ensures
            r.deep_view() == stop_time_update_default(),
    {
        StopTimeUpdate {
            stop_sequence: None,
            arrival: None,
            departure: None,
            stop_id: None,
            schedule_relationship: None,
            stop_time_properties: None,
            departure_occupancy_status: None,
        }
    }
}

/// Realtime position of a vehicle.
pub struct VehiclePosition {
    pub trip: Option<TripDescriptor>,
    pub position: Option<Position>,
    pub current_stop_sequence: Option<u32>,
    pub current_status: Option<i32>,
    pub timestamp: Option<u64>,
    pub congestion_level: Option<i32>,
    pub stop_id: Option<String>,
    pub vehicle: Option<VehicleDescriptor>,
    pub occupancy_status: Option<i32>,
    pub occupancy_percentage: Option<u32>,
    pub multi_carriage_details: Vec<RawMessage>,
}

/// The value of a `VehiclePosition`.
#[verifier::ext_equal]
pub struct SpecVehiclePosition {
    pub trip: Option<SpecTripDescriptor>,
    pub position: Option<SpecPosition>,
    pub current_stop_sequence: Option<u32>,
    pub current_status: Option<i32>,
    pub timestamp: Option<u64>,
    pub congestion_level: Option<i32>,
    pub stop_id: Option<Seq<char>>,
    pub vehicle: Option<SpecVehicleDescriptor>,
    pub occupancy_status: Option<i32>,
    pub occupancy_percentage: Option<u32>,
    pub multi_carriage_details: Seq<Seq<u8>>,
}

impl DeepView for VehiclePosition {
    type V = SpecVehiclePosition;

    open spec fn deep_view(&self) -> SpecVehiclePosition {
        SpecVehiclePosition {
            trip: self.trip.deep_view(),
            position: self.position.deep_view(),
            current_stop_sequence: self.current_stop_sequence,
            current_status: self.current_status,
            timestamp: self.timestamp,
            congestion_level: self.congestion_level,
            stop_id: self.stop_id.deep_view(),
            vehicle: self.vehicle.deep_view(),
            occupancy_status: self.occupancy_status,
            occupancy_percentage: self.occupancy_percentage,
            multi_carriage_details: self.multi_carriage_details.deep_view(),
        }
    }
}

/// A `VehiclePosition` with no field set.
pub open spec fn vehicle_position_default() -> SpecVehiclePosition {
    SpecVehiclePosition {
        trip: None,
        position: None,
        current_stop_sequence: None,
        current_status: None,
        timestamp: None,
        congestion_level: None,
        stop_id: None,
        vehicle: None,
        occupancy_status: None,
        occupancy_percentage: None,
        multi_carriage_details: Seq::empty(),
    }
}

impl VehiclePosition {
    pub fn new() -> (r: Self)
        ensures
            r.deep_view() == vehicle_position_default(),
    {
        VehiclePosition {
            trip: None,
            position: None,
            current_stop_sequence: None,
            current_status: None,
            timestamp: None,
            congestion_level: None,
            stop_id: None,
            vehicle: None,
            occupancy_status: None,
            occupancy_percentage: None,
            multi_carriage_details: Vec::new(),
        }
    }
}

/// A geographic position; the float fields are kept as their IEEE-754 bits.
pub struct Position {
    pub latitude: u32,
    pub longitude: u32,
    pub bearing: Option<u32>,
    pub odometer: Option<u64>,
    pub speed: Option<u32>,
}

/// The value of a `Position`.
#[verifier::ext_equal]
pub struct SpecPosition {
    pub latitude: u32,
    pub longitude: u32,
    pub bearing: Option<u32>,
    pub odometer: Option<u64>,
    pub speed: Option<u32>,
}

impl DeepView for Position {
    type V = SpecPosition;

    open spec fn deep_view(&self) -> SpecPosition {
        SpecPosition {
            latitude: self.latitude,
            longitude: self.longitude,
            bearing: self.bearing,
            odometer: self.odometer,
            speed: self.speed,
        }
    }
}

/// A `Position` with no field set.
pub open spec fn position_default() -> SpecPosition {
    SpecPosition {
        latitude: 0,
        longitude: 0,
        bearing: None,
        odometer: None,
        speed: None,
    }
}

impl Position {
    pub fn new() -> (r: Self)
        ensures
            r.deep_view() == position_default(),
    {
        Position {
            latitude: 0,
            longitude: 0,
            bearing: None,
            odometer: None,
            speed: None,
        }
    }
}

/// Identifies a trip.
pub struct TripDescriptor {
    pub trip_id: Option<String>,
    pub start_time: Option<String>,
    pub start_date: Option<String>,
    pub schedule_relationship: Option<i32>,
    pub route_id: Option<String>,
    pub direction_id: Option<u32>,
    pub modified_trip: Option<ModifiedTripSelector>,
}

/// The value of a `TripDescriptor`.
#[verifier::ext_equal]
pub struct SpecTripDescriptor {
    pub trip_id: Option<Seq<char>>,
    pub start_time: Option<Seq<char>>,
    pub start_date: Option<Seq<char>>,
    pub schedule_relationship: Option<i32>,
    pub route_id: Option<Seq<char>>,
    pub direction_id: Option<u32>,
    pub modified_trip: Option<SpecModifiedTripSelector>,
}

impl DeepView for TripDescriptor {
    type V = SpecTripDescriptor;

    open spec fn deep_view(&self) -> SpecTripDescriptor {
        SpecTripDescriptor {
            trip_id: self.trip_id.deep_view(),
            start_time: self.start_time.deep_view(),
            start_date: self.start_date.deep_view(),
            schedule_relationship: self.schedule_relationship,
            route_id: self.route_id.deep_view(),
            direction_id: self.direction_id,
            modified_trip: self.modified_trip.deep_view(),
        }
    }
}

/// A `TripDescriptor` with no field set.
pub open spec fn trip_descriptor_default() -> SpecTripDescriptor {
    SpecTripDescriptor {
        trip_id: None,
        start_time: None,
        start_date: None,
        schedule_relationship: None,
        route_id: None,
        direction_id: None,
        modified_trip: None,
    }
}

impl TripDescriptor {
    pub fn new() -> (r: Self)
        ensures
            r.deep_view() == trip_descriptor_default(),
    {
        TripDescriptor {
            trip_id: None,
            start_time: None,
            start_date: None,
            schedule_relationship: None,
            route_id: None,
            direction_id: None,
            modified_trip: None,
        }
    }
}

/// Points a trip at the trip modifications that apply to it.
pub struct ModifiedTripSelector {
    pub modifications_id: Option<String>,
    pub affected_trip_id: Option<String>,
    pub start_time: Option<String>,
    pub start_date: Option<String>,
}

/// The value of a `ModifiedTripSelector`.
#[verifier::ext_equal]
pub struct SpecModifiedTripSelector {
    pub modifications_id: Option<Seq<char>>,
    pub affected_trip_id: Option<Seq<char>>,
    pub start_time: Option<Seq<char>>,
    pub start_date: Option<Seq<char>>,
}

impl DeepView for ModifiedTripSelector {
    type V = SpecModifiedTripSelector;

    open spec fn deep_view(&self) -> SpecModifiedTripSelector {
        SpecModifiedTripSelector {
            modifications_id: self.modifications_id.deep_view(),
            affected_trip_id: self.affected_trip_id.deep_view(),
            start_time: self.start_time.deep_view(),
            start_date: self.start_date.deep_view(),
        }
    }
}

/// A `ModifiedTripSelector` with no field set.
pub open spec fn modified_trip_selector_default() -> SpecModifiedTripSelector {
    SpecModifiedTripSelector {
        modifications_id: None,
        affected_trip_id: None,
        start_time: None,
        start_date: None,
    }
}

impl ModifiedTripSelector {
    pub fn new() -> (r: Self)
        ensures
            r.deep_view() == modified_trip_selector_default(),
    {
        ModifiedTripSelector {
            modifications_id: None,
            affected_trip_id: None,
            start_time: None,
            start_date: None,
        }
    }
}

/// Identifies a vehicle.
pub struct VehicleDescriptor {
    pub id: Option<String>,
    pub label: Option<String>,
    pub license_plate: Option<String>,
    pub wheelchair_accessible: Option<i32>,
}

/// The value of a `VehicleDescriptor`.
#[verifier::ext_equal]
pub struct SpecVehicleDescriptor {
    pub id: Option<Seq<char>>,
    pub label: Option<Seq<char>>,
    pub license_plate: Option<Seq<char>>,
    pub wheelchair_accessible: Option<i32>,
}

impl DeepView for VehicleDescriptor {
    type V = SpecVehicleDescriptor;

    open spec fn deep_view(&self) -> SpecVehicleDescriptor {
        SpecVehicleDescriptor {
            id: self.id.deep_view(),
            label: self.label.deep_view(),
            license_plate: self.license_plate.deep_view(),
            wheelchair_accessible: self.wheelchair_accessible,
        }
    }
}

/// A `VehicleDescriptor` with no field set.
pub open spec fn vehicle_descriptor_default() -> SpecVehicleDescriptor {
    SpecVehicleDescriptor {
        id: None,
        label: None,
        license_plate: None,
        wheelchair_accessible: None,
    }
}

impl VehicleDescriptor {
    pub fn new() -> (r: Self)
        ensures
            r.deep_view() == vehicle_descriptor_default(),
    {
        VehicleDescriptor {
            id: None,
            label: None,
            license_plate: None,
            wheelchair_accessible: None,
        }
    }
}

/// A service alert.
pub struct Alert {
    pub active_period: Vec<TimeRange>,
    pub informed_entity: Vec<EntitySelector>,
    pub cause: Option<i32>,
    pub effect: Option<i32>,
    pub url: Option<TranslatedString>,
    pub header_text: Option<TranslatedString>,
    pub description_text: Option<TranslatedString>,
    pub tts_header_text: Option<TranslatedString>,
    pub tts_description_text: Option<TranslatedString>,
    pub severity_level: Option<i32>,
    pub image: Option<RawMessage>,
    pub image_alternative_text: Option<TranslatedString>,
    pub cause_detail: Option<TranslatedString>,
    pub effect_detail: Option<TranslatedString>,
}

/// The value of a `Alert`.
#[verifier::ext_equal]
pub struct SpecAlert {
    pub active_period: Seq<SpecTimeRange>,
    pub informed_entity: Seq<SpecEntitySelector>,
    pub cause: Option<i32>,
    pub effect: Option<i32>,
    pub url: Option<SpecTranslatedString>,
    pub header_text: Option<SpecTranslatedString>,
    pub description_text: Option<SpecTranslatedString>,
    pub tts_header_text: Option<SpecTranslatedString>,
    pub tts_description_text: Option<SpecTranslatedString>,
    pub severity_level: Option<i32>,
    pub image: Option<Seq<u8>>,
    pub image_alternative_text: Option<SpecTranslatedString>,
    pub cause_detail: Option<SpecTranslatedString>,
    pub effect_detail: Option<SpecTranslatedString>,
}

impl DeepView for Alert {
    type V = SpecAlert;

    open spec fn deep_view(&self) -> SpecAlert {
        SpecAlert {
            active_period: self.active_period.deep_view(),
            informed_entity: self.informed_entity.deep_view(),
            cause: self.cause,
            effect: self.effect,
            url: self.url.deep_view(),
            header_text: self.header_text.deep_view(),
            description_text: self.description_text.deep_view(),
            tts_header_text: self.tts_header_text.deep_view(),
            tts_description_text: self.tts_description_text.deep_view(),
            severity_level: self.severity_level,
            image: self.image.deep_view(),
            image_alternative_text: self.image_alternative_text.deep_view(),
            cause_detail: self.cause_detail.deep_view(),
            effect_detail: self.effect_detail.deep_view(),
        }
    }
}

/// A `Alert` with no field set.
pub open spec fn alert_default() -> SpecAlert {
    SpecAlert {
        active_period: Seq::empty(),
        informed_entity: Seq::empty(),
        cause: None,
        effect: None,
        url: None,
        header_text: None,
        description_text: None,
        tts_header_text: None,
        tts_description_text: None,
        severity_level: None,
        image: None,
        image_alternative_text: None,
        cause_detail: None,
        effect_detail: None,
    }
}

impl Alert {
    pub fn new() -> (r: Self)
        ensures
            r.deep_view() == alert_default(),
    {
        Alert {
            active_period: Vec::new(),
            informed_entity: Vec::new(),
            cause: None,
            effect: None,
            url: None,
            header_text: None,
            description_text: None,
            tts_header_text: None,
            tts_description_text: None,
            severity_level: None,
            image: None,
            image_alternative_text: None,
            cause_detail: None,
            effect_detail: None,
        }
    }
}

/// An interval of time, open where a bound is missing.
pub struct TimeRange {
    pub start: Option<u64>,
    pub end: Option<u64>,
}

/// The value of a `TimeRange`.
#[verifier::ext_equal]
pub struct SpecTimeRange {
    pub start: Option<u64>,
    pub end: Option<u64>,
}

impl DeepView for TimeRange {
    type V = SpecTimeRange;

    open spec fn deep_view(&self) -> SpecTimeRange {
        SpecTimeRange {
            start: self.start,
            end: self.end,
        }
    }
}

/// A `TimeRange` with no field set.
pub open spec fn time_range_default() -> SpecTimeRange {
    SpecTimeRange {
        start: None,
        end: None,
    }
}

impl TimeRange {
    pub fn new() -> (r: Self)
        ensures
            r.deep_view() == time_range_default(),
    {
        TimeRange {
            start: None,
            end: None,
        }
    }
}

/// What an alert applies to.
pub struct EntitySelector {
    pub agency_id: Option<String>,
    pub route_id: Option<String>,
    pub route_type: Option<i32>,
    pub trip: Option<TripDescriptor>,
    pub stop_id: Option<String>,
    pub direction_id: Option<u32>,
}

/// The value of a `EntitySelector`.
#[verifier::ext_equal]
pub struct SpecEntitySelector {
    pub agency_id: Option<Seq<char>>,
    pub route_id: Option<Seq<char>>,
    pub route_type: Option<i32>,
    pub trip: Option<SpecTripDescriptor>,
    pub stop_id: Option<Seq<char>>,
    pub direction_id: Option<u32>,
}

impl DeepView for EntitySelector {
    type V = SpecEntitySelector;

    open spec fn deep_view(&self) -> SpecEntitySelector {
        SpecEntitySelector {
            agency_id: self.agency_id.deep_view(),
            route_id: self.route_id.deep_view(),
            route_type: self.route_type,
            trip: self.trip.deep_view(),
            stop_id: self.stop_id.deep_view(),
            direction_id: self.direction_id,
        }
    }
}

/// A `EntitySelector` with no field set.
pub open spec fn entity_selector_default() -> SpecEntitySelector {
    SpecEntitySelector {
        agency_id: None,
        route_id: None,
        route_type: None,
        trip: None,
        stop_id: None,
        direction_id: None,
    }
}

impl EntitySelector {
    pub fn new() -> (r: Self)
        ensures
            r.deep_view() == entity_selector_default(),
    {
        EntitySelector {
            agency_id: None,
            route_id: None,
            route_type: None,
            trip: None,
            stop_id: None,
            direction_id: None,
        }
    }
}

/// A text in one or more languages.
pub struct TranslatedString {
    pub translation: Vec<Translation>,
}

/// The value of a `TranslatedString`.
#[verifier::ext_equal]
pub struct SpecTranslatedString {
    pub translation: Seq<SpecTranslation>,
}

impl DeepView for TranslatedString {
    type V = SpecTranslatedString;

    open spec fn deep_view(&self) -> SpecTranslatedString {
        SpecTranslatedString {
            translation: self.translation.deep_view(),
        }
    }
}

/// A `TranslatedString` with no field set.
pub open spec fn translated_string_default() -> SpecTranslatedString {
    SpecTranslatedString {
        translation: Seq::empty(),
    }
}

impl TranslatedString {
    pub fn new() -> (r: Self)
        ensures
            r.deep_view() == translated_string_default(),
    {
        TranslatedString {
            translation: Vec::new(),
        }
    }
}

/// A text in one language.
pub struct Translation {
    pub text: String,
    pub language: Option<String>,
}

/// The value of a `Translation`.
#[verifier::ext_equal]
pub struct SpecTranslation {
    pub text: Seq<char>,
    pub language: Option<Seq<char>>,
}

impl DeepView for Translation {
    type V = SpecTranslation;

    open spec fn deep_view(&self) -> SpecTranslation {
        SpecTranslation {
            text: self.text@,
            language: self.language.deep_view(),
        }
    }
}

/// A `Translation` with no field set.
pub open spec fn translation_default() -> SpecTranslation {
    SpecTranslation {
        text: Seq::empty(),
        language: None,
    }
}

impl Translation {
    pub fn new() -> (r: Self)
        ensures
            r.deep_view() == translation_default(),
    {
        Translation {
            text: String::new(),
            language: None,
        }
    }
}

/// Changes to the trips it selects, on the dates it selects.
pub struct TripModifications {
    pub selected_trips: Vec<SelectedTrips>,
    pub start_times: Vec<String>,
    pub service_dates: Vec<String>,
    pub modifications: Vec<Modification>,
}

/// The value of a `TripModifications`.
#[verifier::ext_equal]
pub struct SpecTripModifications {
    pub selected_trips: Seq<SpecSelectedTrips>,
    pub start_times: Seq<Seq<char>>,
    pub service_dates: Seq<Seq<char>>,
    pub modifications: Seq<SpecModification>,
}

impl DeepView for TripModifications {
    type V = SpecTripModifications;

    open spec fn deep_view(&self) -> SpecTripModifications {
        SpecTripModifications {
            selected_trips: self.selected_trips.deep_view(),
            start_times: self.start_times.deep_view(),
            service_dates: self.service_dates.deep_view(),
            modifications: self.modifications.deep_view(),
        }
    }
}

/// A `TripModifications` with no field set.
pub open spec fn trip_modifications_default() -> SpecTripModifications {
    SpecTripModifications {
        selected_trips: Seq::empty(),
        start_times: Seq::empty(),
        service_dates: Seq::empty(),
        modifications: Seq::empty(),
    }
}

impl TripModifications {
    pub fn new() -> (r: Self)
        ensures
            r.deep_view() == trip_modifications_default(),
    {
        TripModifications {
            selected_trips: Vec::new(),
            start_times: Vec::new(),
            service_dates: Vec::new(),
            modifications: Vec::new(),
        }
    }
}

/// Trips that trip modifications apply to.
pub struct SelectedTrips {
    pub trip_ids: Vec<String>,
    pub shape_id: Option<String>,
}

/// The value of a `SelectedTrips`.
#[verifier::ext_equal]
pub struct SpecSelectedTrips {
    pub trip_ids: Seq<Seq<char>>,
    pub shape_id: Option<Seq<char>>,
}

impl DeepView for SelectedTrips {
    type V = SpecSelectedTrips;

    open spec fn deep_view(&self) -> SpecSelectedTrips {
        SpecSelectedTrips {
            trip_ids: self.trip_ids.deep_view(),
            shape_id: self.shape_id.deep_view(),
        }
    }
}

/// A `SelectedTrips` with no field set.
pub open spec fn selected_trips_default() -> SpecSelectedTrips {
    SpecSelectedTrips {
        trip_ids: Seq::empty(),
        shape_id: None,
    }
}

impl SelectedTrips {
    pub fn new() -> (r: Self)
        ensures
            r.deep_view() == selected_trips_default(),
    {
        SelectedTrips {
            trip_ids: Vec::new(),
            shape_id: None,
        }
    }
}

/// One change to a trip: the stops it replaces and with which stops.
pub struct Modification {
    pub start_stop_selector: Option<StopSelector>,
    pub end_stop_selector: Option<StopSelector>,
    pub propagated_modification_delay: Option<i32>,
    pub replacement_stops: Vec<ReplacementStop>,
    pub service_alert_id: Option<String>,
    pub last_modified_time: Option<u64>,
}

/// The value of a `Modification`.
#[verifier::ext_equal]
pub struct SpecModification {
    pub start_stop_selector: Option<SpecStopSelector>,
    pub end_stop_selector: Option<SpecStopSelector>,
    pub propagated_modification_delay: Option<i32>,
    pub replacement_stops: Seq<SpecReplacementStop>,
    pub service_alert_id: Option<Seq<char>>,
    pub last_modified_time: Option<u64>,
}

impl DeepView for Modification {
    type V = SpecModification;

    open spec fn deep_view(&self) -> SpecModification {
        SpecModification {
            start_stop_selector: self.start_stop_selector.deep_view(),
            end_stop_selector: self.end_stop_selector.deep_view(),
            propagated_modification_delay: self.propagated_modification_delay,
            replacement_stops: self.replacement_stops.deep_view(),
            service_alert_id: self.service_alert_id.deep_view(),
            last_modified_time: self.last_modified_time,
        }
    }
}

/// A `Modification` with no field set.
pub open spec fn modification_default() -> SpecModification {
    SpecModification {
        start_stop_selector: None,
        end_stop_selector: None,
        propagated_modification_delay: None,
        replacement_stops: Seq::empty(),
        service_alert_id: None,
        last_modified_time: None,
    }
}

impl Modification {
    pub fn new() -> (r: Self)
        ensures
            r.deep_view() == modification_default(),
    {
        Modification {
            start_stop_selector: None,
            end_stop_selector: None,
            propagated_modification_delay: None,
            replacement_stops: Vec::new(),
            service_alert_id: None,
            last_modified_time: None,
        }
    }
}

/// Selects a stop of a trip.
pub struct StopSelector {
    pub stop_sequence: Option<u32>,
    pub stop_id: Option<String>,
}

/// The value of a `StopSelector`.
#[verifier::ext_equal]
pub struct SpecStopSelector {
    pub stop_sequence: Option<u32>,
    pub stop_id: Option<Seq<char>>,
}

impl DeepView for StopSelector {
    type V = SpecStopSelector;

    open spec fn deep_view(&self) -> SpecStopSelector {
        SpecStopSelector {
            stop_sequence: self.stop_sequence,
            stop_id: self.stop_id.deep_view(),
        }
    }
}

/// A `StopSelector` with no field set.
pub open spec fn stop_selector_default() -> SpecStopSelector {
    SpecStopSelector {
        stop_sequence: None,
        stop_id: None,
    }
}

impl StopSelector {
    pub fn new() -> (r: Self)
        ensures
            r.deep_view() == stop_selector_default(),
    {
        StopSelector {
            stop_sequence: None,
            stop_id: None,
        }
    }
}

/// A stop that a modified trip serves.
pub struct ReplacementStop {
    pub travel_time_to_stop: Option<i32>,
    pub stop_id: Option<String>,
}

/// The value of a `ReplacementStop`.
#[verifier::ext_equal]
pub struct SpecReplacementStop {
    pub travel_time_to_stop: Option<i32>,
    pub stop_id: Option<Seq<char>>,
}

impl DeepView for ReplacementStop {
    type V = SpecReplacementStop;

    open spec fn deep_view(&self) -> SpecReplacementStop {
        SpecReplacementStop {
            travel_time_to_stop: self.travel_time_to_stop,
            stop_id: self.stop_id.deep_view(),
        }
    }
}

/// A `ReplacementStop` with no field set.
pub open spec fn replacement_stop_default() -> SpecReplacementStop {
    SpecReplacementStop {
        travel_time_to_stop: None,
        stop_id: None,
    }
}

impl ReplacementStop {
    pub fn new() -> (r: Self)
        ensures
            r.deep_view() == replacement_stop_default(),
    {
        ReplacementStop {
            travel_time_to_stop: None,
            stop_id: None,
        }
    }
}

} // verus!
