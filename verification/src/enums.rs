//! The enumerations of the GTFS-realtime schema: their values and names, in
//! the order the schema declares them. A feed may hold values that are not
//! declared; those have no name.

use vstd::prelude::*;

verus! {

/// The enumerations whose names the library gives.
#[derive(PartialEq, Eq, Structural, Clone, Copy)]
pub enum ProtoEnum {
    /// How a trip relates to the schedule.
    TripScheduleRelationship,
    /// How a stop time relates to the schedule.
    StopScheduleRelationship,
    /// Where a vehicle is relative to its current stop.
    VehicleStopStatus,
    /// How congested the road of a vehicle is.
    CongestionLevel,
    /// How full a vehicle is.
    OccupancyStatus,
    /// Whether a vehicle is wheelchair accessible.
    WheelchairAccessible,
    /// The cause of an alert.
    Cause,
    /// The effect of an alert.
    Effect,
    /// The severity of an alert.
    SeverityLevel,
}

/// The variants of `e`: value and name, in the order of the schema.
pub open spec fn enum_variants(e: ProtoEnum) -> Seq<(i32, Seq<char>)> {
    match e {
        ProtoEnum::TripScheduleRelationship => seq![(0i32, "SCHEDULED"@), (1i32, "ADDED"@), (2i32, "UNSCHEDULED"@), (3i32, "CANCELED"@), (5i32, "REPLACEMENT"@), (6i32, "DUPLICATED"@), (7i32, "DELETED"@), (8i32, "NEW"@)],
        ProtoEnum::StopScheduleRelationship => seq![(0i32, "SCHEDULED"@), (1i32, "SKIPPED"@), (2i32, "NO_DATA"@), (3i32, "UNSCHEDULED"@)],
        ProtoEnum::VehicleStopStatus => seq![(0i32, "INCOMING_AT"@), (1i32, "STOPPED_AT"@), (2i32, "IN_TRANSIT_TO"@)],
        ProtoEnum::CongestionLevel => seq![(0i32, "UNKNOWN_CONGESTION_LEVEL"@), (1i32, "RUNNING_SMOOTHLY"@), (2i32, "STOP_AND_GO"@), (3i32, "CONGESTION"@), (4i32, "SEVERE_CONGESTION"@)],
        ProtoEnum::OccupancyStatus => seq![(0i32, "EMPTY"@), (1i32, "MANY_SEATS_AVAILABLE"@), (2i32, "FEW_SEATS_AVAILABLE"@), (3i32, "STANDING_ROOM_ONLY"@), (4i32, "CRUSHED_STANDING_ROOM_ONLY"@), (5i32, "FULL"@), (6i32, "NOT_ACCEPTING_PASSENGERS"@), (7i32, "NO_DATA_AVAILABLE"@), (8i32, "NOT_BOARDABLE"@)],
        ProtoEnum::WheelchairAccessible => seq![(0i32, "NO_VALUE"@), (1i32, "UNKNOWN"@), (2i32, "WHEELCHAIR_ACCESSIBLE"@), (3i32, "WHEELCHAIR_INACCESSIBLE"@)],
        ProtoEnum::Cause => seq![(1i32, "UNKNOWN_CAUSE"@), (2i32, "OTHER_CAUSE"@), (3i32, "TECHNICAL_PROBLEM"@), (4i32, "STRIKE"@), (5i32, "DEMONSTRATION"@), (6i32, "ACCIDENT"@), (7i32, "HOLIDAY"@), (8i32, "WEATHER"@), (9i32, "MAINTENANCE"@), (10i32, "CONSTRUCTION"@), (11i32, "POLICE_ACTIVITY"@), (12i32, "MEDICAL_EMERGENCY"@)],
        ProtoEnum::Effect => seq![(1i32, "NO_SERVICE"@), (2i32, "REDUCED_SERVICE"@), (3i32, "SIGNIFICANT_DELAYS"@), (4i32, "DETOUR"@), (5i32, "ADDITIONAL_SERVICE"@), (6i32, "MODIFIED_SERVICE"@), (7i32, "OTHER_EFFECT"@), (8i32, "UNKNOWN_EFFECT"@), (9i32, "STOP_MOVED"@), (10i32, "NO_EFFECT"@), (11i32, "ACCESSIBILITY_ISSUE"@)],
        ProtoEnum::SeverityLevel => seq![(1i32, "UNKNOWN_SEVERITY"@), (2i32, "INFO"@), (3i32, "WARNING"@), (4i32, "SEVERE"@)],
    }
}

/// The variants of `e`: value and name, in the order of the schema.
pub fn variants(e: ProtoEnum) -> (r: Vec<(i32, &'static str)>)
    ensures
        r@.len() == enum_variants(e).len(),
        forall|i: int|
            0 <= i < r@.len() ==> r@[i].0 == enum_variants(e)[i].0 && r@[i].1@ == enum_variants(e)[i].1,
{
    let mut r: Vec<(i32, &'static str)> = Vec::new();
    match e {
        ProtoEnum::TripScheduleRelationship => {
            r.push((0, "SCHEDULED"));
            r.push((1, "ADDED"));
            r.push((2, "UNSCHEDULED"));
            r.push((3, "CANCELED"));
            r.push((5, "REPLACEMENT"));
            r.push((6, "DUPLICATED"));
            r.push((7, "DELETED"));
            r.push((8, "NEW"));
        },
        ProtoEnum::StopScheduleRelationship => {
            r.push((0, "SCHEDULED"));
            r.push((1, "SKIPPED"));
            r.push((2, "NO_DATA"));
            r.push((3, "UNSCHEDULED"));
        },
        ProtoEnum::VehicleStopStatus => {
            r.push((0, "INCOMING_AT"));
            r.push((1, "STOPPED_AT"));
            r.push((2, "IN_TRANSIT_TO"));
        },
        ProtoEnum::CongestionLevel => {
            r.push((0, "UNKNOWN_CONGESTION_LEVEL"));
            r.push((1, "RUNNING_SMOOTHLY"));
            r.push((2, "STOP_AND_GO"));
            r.push((3, "CONGESTION"));
            r.push((4, "SEVERE_CONGESTION"));
        },
        ProtoEnum::OccupancyStatus => {
            r.push((0, "EMPTY"));
            r.push((1, "MANY_SEATS_AVAILABLE"));
            r.push((2, "FEW_SEATS_AVAILABLE"));
            r.push((3, "STANDING_ROOM_ONLY"));
            r.push((4, "CRUSHED_STANDING_ROOM_ONLY"));
            r.push((5, "FULL"));
            r.push((6, "NOT_ACCEPTING_PASSENGERS"));
            r.push((7, "NO_DATA_AVAILABLE"));
            r.push((8, "NOT_BOARDABLE"));
        },
        ProtoEnum::WheelchairAccessible => {
            r.push((0, "NO_VALUE"));
            r.push((1, "UNKNOWN"));
            r.push((2, "WHEELCHAIR_ACCESSIBLE"));
            r.push((3, "WHEELCHAIR_INACCESSIBLE"));
        },
        ProtoEnum::Cause => {
            r.push((1, "UNKNOWN_CAUSE"));
            r.push((2, "OTHER_CAUSE"));
            r.push((3, "TECHNICAL_PROBLEM"));
            r.push((4, "STRIKE"));
            r.push((5, "DEMONSTRATION"));
            r.push((6, "ACCIDENT"));
            r.push((7, "HOLIDAY"));
            r.push((8, "WEATHER"));
            r.push((9, "MAINTENANCE"));
            r.push((10, "CONSTRUCTION"));
            r.push((11, "POLICE_ACTIVITY"));
            r.push((12, "MEDICAL_EMERGENCY"));
        },
        ProtoEnum::Effect => {
            r.push((1, "NO_SERVICE"));
            r.push((2, "REDUCED_SERVICE"));
            r.push((3, "SIGNIFICANT_DELAYS"));
            r.push((4, "DETOUR"));
            r.push((5, "ADDITIONAL_SERVICE"));
            r.push((6, "MODIFIED_SERVICE"));
            r.push((7, "OTHER_EFFECT"));
            r.push((8, "UNKNOWN_EFFECT"));
            r.push((9, "STOP_MOVED"));
            r.push((10, "NO_EFFECT"));
            r.push((11, "ACCESSIBILITY_ISSUE"));
        },
        ProtoEnum::SeverityLevel => {
            r.push((1, "UNKNOWN_SEVERITY"));
            r.push((2, "INFO"));
            r.push((3, "WARNING"));
            r.push((4, "SEVERE"));
        },
    }
    r
}

/// The path of the type that `e` is generated as.
pub open spec fn enum_type_path(e: ProtoEnum) -> Seq<char> {
    match e {
        ProtoEnum::TripScheduleRelationship => "gtfsrealtime::transit_realtime::trip_descriptor::ScheduleRelationship"@,
        ProtoEnum::StopScheduleRelationship => "gtfsrealtime::transit_realtime::trip_update::stop_time_update::ScheduleRelationship"@,
        ProtoEnum::VehicleStopStatus => "gtfsrealtime::transit_realtime::vehicle_position::VehicleStopStatus"@,
        ProtoEnum::CongestionLevel => "gtfsrealtime::transit_realtime::vehicle_position::CongestionLevel"@,
        ProtoEnum::OccupancyStatus => "gtfsrealtime::transit_realtime::vehicle_position::OccupancyStatus"@,
        ProtoEnum::WheelchairAccessible => "gtfsrealtime::transit_realtime::vehicle_descriptor::WheelchairAccessible"@,
        ProtoEnum::Cause => "gtfsrealtime::transit_realtime::alert::Cause"@,
        ProtoEnum::Effect => "gtfsrealtime::transit_realtime::alert::Effect"@,
        ProtoEnum::SeverityLevel => "gtfsrealtime::transit_realtime::alert::SeverityLevel"@,
    }
}

pub fn type_path(e: ProtoEnum) -> (r: &'static str)
    ensures
        r@ == enum_type_path(e),
{
    match e {
        ProtoEnum::TripScheduleRelationship => "gtfsrealtime::transit_realtime::trip_descriptor::ScheduleRelationship",
        ProtoEnum::StopScheduleRelationship => "gtfsrealtime::transit_realtime::trip_update::stop_time_update::ScheduleRelationship",
        ProtoEnum::VehicleStopStatus => "gtfsrealtime::transit_realtime::vehicle_position::VehicleStopStatus",
        ProtoEnum::CongestionLevel => "gtfsrealtime::transit_realtime::vehicle_position::CongestionLevel",
        ProtoEnum::OccupancyStatus => "gtfsrealtime::transit_realtime::vehicle_position::OccupancyStatus",
        ProtoEnum::WheelchairAccessible => "gtfsrealtime::transit_realtime::vehicle_descriptor::WheelchairAccessible",
        ProtoEnum::Cause => "gtfsrealtime::transit_realtime::alert::Cause",
        ProtoEnum::Effect => "gtfsrealtime::transit_realtime::alert::Effect",
        ProtoEnum::SeverityLevel => "gtfsrealtime::transit_realtime::alert::SeverityLevel",
    }
}

/// The name of value `v` among `vs`: that of the first variant with that
/// value.
pub open spec fn label_of(vs: Seq<(i32, Seq<char>)>, v: i32) -> Option<Seq<char>>
    decreases vs.len(),
{
    if vs.len() == 0 {
        None
    } else if vs[0].0 == v {
        Some(vs[0].1)
    } else {
        label_of(vs.drop_first(), v)
    }
}

/// The levels (values) and labels (names) of `e`, in the order of the schema,
/// with the path of its type.
pub fn enum_to_list(e: ProtoEnum) -> (r: (Vec<i32>, Vec<&'static str>, &'static str))
    ensures
        r.0@ == enum_variants(e).map_values(|x: (i32, Seq<char>)| x.0),
        r.1@.len() == enum_variants(e).len(),
        forall|i: int| 0 <= i < r.1@.len() ==> r.1@[i]@ == enum_variants(e)[i].1,
        r.2@ == enum_type_path(e),
{
    let vs = variants(e);
    let mut levels: Vec<i32> = Vec::new();
    let mut labels: Vec<&'static str> = Vec::new();
    let mut i: usize = 0;
    while i < vs.len()
        invariant
            0 <= i <= vs@.len(),
            vs@.len() == enum_variants(e).len(),
            forall|k: int|
                0 <= k < vs@.len() ==> vs@[k].0 == enum_variants(e)[k].0 && vs@[k].1@
                    == enum_variants(e)[k].1,
            levels@ == enum_variants(e).take(i as int).map_values(|x: (i32, Seq<char>)| x.0),
            labels@.len() == i,
            forall|k: int| 0 <= k < i ==> labels@[k]@ == enum_variants(e)[k].1,
        decreases vs@.len() - i,
    {
        let (level, label) = vs[i];
        levels.push(level);
        labels.push(label);
        assert(enum_variants(e).take(i + 1).map_values(|x: (i32, Seq<char>)| x.0) =~= enum_variants(
            e,
        ).take(i as int).map_values(|x: (i32, Seq<char>)| x.0).push(level));
        i += 1;
    }
    assert(enum_variants(e).take(vs@.len() as int) =~= enum_variants(e));
    (levels, labels, type_path(e))
}

/// The value of the `i`-th variant of `e`, if it has that many.
pub fn get_or_none(e: ProtoEnum, i: usize) -> (r: Option<i32>)
    ensures
        i < enum_variants(e).len() ==> r == Some(enum_variants(e)[i as int].0),
        i >= enum_variants(e).len() ==> r is None,
{
    let vs = variants(e);
    if i >= vs.len() {
        None
    } else {
        Some(vs[i].0)
    }
}

/// The name of value `v` of `e`; none for a value the schema does not declare.
pub fn as_str_name_t(e: ProtoEnum, v: i32) -> (r: Option<&'static str>)
    ensures
        match r {
            Some(s) => label_of(enum_variants(e), v) == Some(s@),
            None => label_of(enum_variants(e), v) is None,
        },
{
    let vs = variants(e);
    let mut i: usize = 0;
    assert(enum_variants(e).skip(0) =~= enum_variants(e));
    while i < vs.len()
        invariant
            0 <= i <= vs@.len(),
            vs@.len() == enum_variants(e).len(),
            forall|k: int|
                0 <= k < vs@.len() ==> vs@[k].0 == enum_variants(e)[k].0 && vs@[k].1@
                    == enum_variants(e)[k].1,
            label_of(enum_variants(e), v) == label_of(enum_variants(e).skip(i as int), v),
        decreases vs@.len() - i,
    {
        let ghost t = enum_variants(e).skip(i as int);
        assert(t.drop_first() =~= enum_variants(e).skip(i + 1));
        assert(t[0] == enum_variants(e)[i as int]);
        if vs[i].0 == v {
            return Some(vs[i].1);
        }
        i += 1;
    }
    assert(enum_variants(e).skip(i as int).len() == 0);
    None
}

} // verus!
