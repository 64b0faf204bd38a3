//! Vehicle positions as rows: one row for each entity that holds a vehicle
//! position. Within a file, ids are made unique: a repeated id is replaced
//! and the replacement is reported.

use crate::dedup::{lemma_next_id_fresh, next_id, note_replacement, take_id, IdDeduplicator, ReplacedId};
use crate::model::{FeedMessage, SpecFeedEntity, SpecFeedMessage, SpecVehiclePosition, VehiclePosition};
use crate::rows::clone_opt;
use vstd::prelude::*;

verus! {

/// One vehicle position. The coordinates, bearing, odometer and speed are the
/// IEEE-754 bits of the feed's floats.
pub struct RVehiclePosition {
    pub file_index: usize,
    pub id: String,
    pub trip_id: Option<String>,
    pub route_id: Option<String>,
    pub direction_id: Option<u32>,
    pub start_time: Option<String>,
    pub start_date: Option<String>,
    pub schedule_relationship: Option<i32>,
    pub latitude: Option<u32>,
    pub longitude: Option<u32>,
    pub bearing: Option<u32>,
    pub odometer: Option<u64>,
    pub speed: Option<u32>,
    pub current_stop_sequence: Option<u32>,
    pub stop_id: Option<String>,
    pub current_status: Option<i32>,
    pub timestamp: Option<u64>,
    pub congestion_level: Option<i32>,
    pub occupancy_status: Option<i32>,
    pub occupancy_percentage: Option<u32>,
    pub vehicle_id: Option<String>,
    pub vehicle_label: Option<String>,
    pub vehicle_license_plate: Option<String>,
    pub vehicle_wheelchair_accessible: Option<i32>,
}

/// The value of an `RVehiclePosition`.
#[verifier::ext_equal]
pub struct SpecRVehiclePosition {
    pub file_index: nat,
    pub id: Seq<char>,
    pub trip_id: Option<Seq<char>>,
    pub route_id: Option<Seq<char>>,
    pub direction_id: Option<u32>,
    pub start_time: Option<Seq<char>>,
    pub start_date: Option<Seq<char>>,
    pub schedule_relationship: Option<i32>,
    pub latitude: Option<u32>,
    pub longitude: Option<u32>,
    pub bearing: Option<u32>,
    pub odometer: Option<u64>,
    pub speed: Option<u32>,
    pub current_stop_sequence: Option<u32>,
    pub stop_id: Option<Seq<char>>,
    pub current_status: Option<i32>,
    pub timestamp: Option<u64>,
    pub congestion_level: Option<i32>,
    pub occupancy_status: Option<i32>,
    pub occupancy_percentage: Option<u32>,
    pub vehicle_id: Option<Seq<char>>,
    pub vehicle_label: Option<Seq<char>>,
    pub vehicle_license_plate: Option<Seq<char>>,
    pub vehicle_wheelchair_accessible: Option<i32>,
}

impl DeepView for RVehiclePosition {
    type V = SpecRVehiclePosition;

    open spec fn deep_view(&self) -> SpecRVehiclePosition {
        SpecRVehiclePosition {
            file_index: self.file_index as nat,
            id: self.id@,
            trip_id: self.trip_id.deep_view(),
            route_id: self.route_id.deep_view(),
            direction_id: self.direction_id,
            start_time: self.start_time.deep_view(),
            start_date: self.start_date.deep_view(),
            schedule_relationship: self.schedule_relationship,
            latitude: self.latitude,
            longitude: self.longitude,
            bearing: self.bearing,
            odometer: self.odometer,
            speed: self.speed,
            current_stop_sequence: self.current_stop_sequence,
            stop_id: self.stop_id.deep_view(),
            current_status: self.current_status,
            timestamp: self.timestamp,
            congestion_level: self.congestion_level,
            occupancy_status: self.occupancy_status,
            occupancy_percentage: self.occupancy_percentage,
            vehicle_id: self.vehicle_id.deep_view(),
            vehicle_label: self.vehicle_label.deep_view(),
            vehicle_license_plate: self.vehicle_license_plate.deep_view(),
            vehicle_wheelchair_accessible: self.vehicle_wheelchair_accessible,
        }
    }
}

/// The row of vehicle position `v`, read from file `fi` under id `id`.
pub open spec fn position_row(fi: nat, id: Seq<char>, v: SpecVehiclePosition) -> SpecRVehiclePosition {
    SpecRVehiclePosition {
        file_index: fi,
        id: id,
        trip_id: match v.trip {
            Some(t) => t.trip_id,
            None => None,
        },
        route_id: match v.trip {
            Some(t) => t.route_id,
            None => None,
        },
        direction_id: match v.trip {
            Some(t) => t.direction_id,
            None => None,
        },
        start_time: match v.trip {
            Some(t) => t.start_time,
            None => None,
        },
        start_date: match v.trip {
            Some(t) => t.start_date,
            None => None,
        },
        schedule_relationship: match v.trip {
            Some(t) => t.schedule_relationship,
            None => None,
        },
        latitude: match v.position {
            Some(p) => Some(p.latitude),
            None => None,
        },
        longitude: match v.position {
            Some(p) => Some(p.longitude),
            None => None,
        },
        bearing: match v.position {
            Some(p) => p.bearing,
            None => None,
        },
        odometer: match v.position {
            Some(p) => p.odometer,
            None => None,
        },
        speed: match v.position {
            Some(p) => p.speed,
            None => None,
        },
        current_stop_sequence: v.current_stop_sequence,
        stop_id: v.stop_id,
        current_status: v.current_status,
        timestamp: v.timestamp,
        congestion_level: v.congestion_level,
        occupancy_status: v.occupancy_status,
        occupancy_percentage: v.occupancy_percentage,
        vehicle_id: match v.vehicle {
            Some(d) => d.id,
            None => None,
        },
        vehicle_label: match v.vehicle {
            Some(d) => d.label,
            None => None,
        },
        vehicle_license_plate: match v.vehicle {
            Some(d) => d.license_plate,
            None => None,
        },
        vehicle_wheelchair_accessible: match v.vehicle {
            Some(d) => d.wheelchair_accessible,
            None => None,
        },
    }
}

/// Reading the entities of file `fi` in order: the ids handed out, the rows,
/// and the ids that were replaced (with their replacements).
pub open spec fn position_file(fi: nat, es: Seq<SpecFeedEntity>) -> (
    Seq<Seq<char>>,
    Seq<SpecRVehiclePosition>,
    Seq<(Seq<char>, Seq<char>)>,
)
    decreases es.len(),
{
    if es.len() == 0 {
        (Seq::empty(), Seq::empty(), Seq::empty())
    } else {
        let prev = position_file(fi, es.drop_last());
        let e = es.last();
        match e.vehicle {
            None => prev,
            Some(v) => {
                let id = next_id(prev.0, e.id);
                (
                    prev.0.push(id),
                    prev.1.push(position_row(fi, id, v)),
                    note_replacement(prev.2, e.id, id),
                )
            },
        }
    }
}

/// The rows and replaced ids of the feeds, file after file.
pub open spec fn position_rows(feeds: Seq<SpecFeedMessage>) -> (
    Seq<SpecRVehiclePosition>,
    Seq<(Seq<char>, Seq<char>)>,
)
    decreases feeds.len(),
{
    if feeds.len() == 0 {
        (Seq::empty(), Seq::empty())
    } else {
        let prev = position_rows(feeds.drop_last());
        let f = position_file((feeds.len() - 1) as nat, feeds.last().entity);
        (prev.0 + f.1, prev.1 + f.2)
    }
}

pub proof fn lemma_position_file_len(fi: nat, es: Seq<SpecFeedEntity>)
    ensures
        position_file(fi, es).0.len() <= es.len(),
    decreases es.len(),
{
    if es.len() > 0 {
        lemma_position_file_len(fi, es.drop_last());
    }
}

/// Within one file, the rows carry the ids handed out, in order, and these
/// are all different: a repeated id is replaced by one not handed out before.
pub proof fn lemma_position_ids_distinct(fi: nat, es: Seq<SpecFeedEntity>)
    ensures
        position_file(fi, es).0.no_duplicates(),
        position_file(fi, es).1.len() == position_file(fi, es).0.len(),
        forall|k: int|
            0 <= k < position_file(fi, es).1.len() ==> (#[trigger] position_file(fi, es).1[k]).id
                == position_file(fi, es).0[k],
    decreases es.len(),
{
    if es.len() > 0 {
        lemma_position_ids_distinct(fi, es.drop_last());
        let prev = position_file(fi, es.drop_last());
        let e = es.last();
        if let Some(v) = e.vehicle {
            let id = next_id(prev.0, e.id);
            lemma_next_id_fresh(prev.0, e.id);
            let ids = prev.0.push(id);
            assert forall|a: int, b: int| 0 <= a < ids.len() && 0 <= b < ids.len() && a != b implies ids[a]
                != ids[b] by {
                if a == prev.0.len() {
                    assert(prev.0[b] == ids[b]);
                    assert(prev.0.contains(prev.0[b]));
                } else if b == prev.0.len() {
                    assert(prev.0[a] == ids[a]);
                    assert(prev.0.contains(prev.0[a]));
                } else {
                    assert(prev.0[a] == ids[a] && prev.0[b] == ids[b]);
                }
            }
            let rows = prev.1.push(position_row(fi, id, v));
            assert forall|k: int| 0 <= k < rows.len() implies (#[trigger] rows[k]).id == ids[k] by {
                if k < prev.1.len() {
                    assert(rows[k] == prev.1[k]);
                    assert(ids[k] == prev.0[k]);
                }
            }
        }
    }
}

/// Row `r` tells of vehicle position `v`: the coordinates, bearing,
/// odometer and speed are those of its position (each on its own, so that a
/// missing bearing, say, leaves the coordinates in place), all missing where
/// it has no position; the trip, vehicle and status fields are `v`'s.
pub open spec fn row_of_vehicle(r: SpecRVehiclePosition, v: SpecVehiclePosition) -> bool {
    &&& v.position matches Some(p) ==> {
        &&& r.latitude == Some(p.latitude)
        &&& r.longitude == Some(p.longitude)
        &&& r.bearing == p.bearing
        &&& r.odometer == p.odometer
        &&& r.speed == p.speed
    }
    &&& v.position is None ==> {
        &&& r.latitude is None
        &&& r.longitude is None
        &&& r.bearing is None
        &&& r.odometer is None
        &&& r.speed is None
    }
    &&& v.trip matches Some(t) ==> {
        &&& r.trip_id == t.trip_id
        &&& r.route_id == t.route_id
        &&& r.direction_id == t.direction_id
        &&& r.start_time == t.start_time
        &&& r.start_date == t.start_date
        &&& r.schedule_relationship == t.schedule_relationship
    }
    &&& v.trip is None ==> r.trip_id is None && r.route_id is None && r.direction_id is None
        && r.start_time is None && r.start_date is None && r.schedule_relationship is None
    &&& v.vehicle matches Some(d) ==> {
        &&& r.vehicle_id == d.id
        &&& r.vehicle_label == d.label
        &&& r.vehicle_license_plate == d.license_plate
        &&& r.vehicle_wheelchair_accessible == d.wheelchair_accessible
    }
    &&& v.vehicle is None ==> r.vehicle_id is None && r.vehicle_label is None
        && r.vehicle_license_plate is None && r.vehicle_wheelchair_accessible is None
    &&& r.current_stop_sequence == v.current_stop_sequence
    &&& r.stop_id == v.stop_id
    &&& r.current_status == v.current_status
    &&& r.timestamp == v.timestamp
    &&& r.congestion_level == v.congestion_level
    &&& r.occupancy_status == v.occupancy_status
    &&& r.occupancy_percentage == v.occupancy_percentage
}

/// Row `r` tells of the vehicle position that entity `e` holds.
pub open spec fn row_of_entity(r: SpecRVehiclePosition, e: SpecFeedEntity) -> bool {
    e.vehicle matches Some(v) && row_of_vehicle(r, v)
}

/// The row of a vehicle position tells of that vehicle position, under the
/// id and file number it was read with.
pub proof fn lemma_position_row_of_vehicle(fi: nat, id: Seq<char>, v: SpecVehiclePosition)
    ensures
        row_of_vehicle(position_row(fi, id, v), v),
        position_row(fi, id, v).file_index == fi,
        position_row(fi, id, v).id == id,
{
}

/// Every row read from a file tells of the vehicle position of one of its
/// entities, the rows keeping the order of the entities.
pub proof fn lemma_position_file_rows(fi: nat, es: Seq<SpecFeedEntity>)
    ensures
        forall|k: int|
            #![trigger position_file(fi, es).1[k]]
            0 <= k < position_file(fi, es).1.len() ==> position_file(fi, es).1[k].file_index == fi && exists|i: int|
                0 <= i < es.len() && row_of_entity(position_file(fi, es).1[k], #[trigger] es[i]),
    decreases es.len(),
{
    if es.len() > 0 {
        let init = es.drop_last();
        lemma_position_file_rows(fi, init);
        let prev = position_file(fi, init);
        let e = es.last();
        let rows = position_file(fi, es).1;
        assert forall|k: int| 0 <= k < rows.len() implies rows[k].file_index == fi && exists|i: int|
            0 <= i < es.len() && row_of_entity(rows[k], #[trigger] es[i]) by {
            if k < prev.1.len() {
                assert(rows[k] == prev.1[k]);
                let i = choose|i: int|
                    0 <= i < init.len() && row_of_entity(prev.1[k], #[trigger] init[i]);
                assert(es[i] == init[i]);
            } else {
                let v = e.vehicle->0;
                let id = next_id(prev.0, e.id);
                lemma_position_row_of_vehicle(fi, id, v);
                assert(rows[k] == position_row(fi, id, v));
                assert(es[es.len() - 1] == e);
                assert(row_of_entity(rows[k], es[es.len() - 1]));
            }
        }
    }
}

fn position_row_of(fi: usize, id: String, v: &VehiclePosition) -> (r: RVehiclePosition)
    ensures
        r.deep_view() == position_row(fi as nat, id@, v.deep_view()),
{
    let (trip_id, route_id, direction_id, start_time, start_date, schedule_relationship) = match &v.trip {
        Some(t) => (
            clone_opt(&t.trip_id),
            clone_opt(&t.route_id),
            t.direction_id,
            clone_opt(&t.start_time),
            clone_opt(&t.start_date),
            t.schedule_relationship,
        ),
        None => (None, None, None, None, None, None),
    };
    let (latitude, longitude, bearing, odometer, speed) = match &v.position {
        Some(p) => (Some(p.latitude), Some(p.longitude), p.bearing, p.odometer, p.speed),
        None => (None, None, None, None, None),
    };
    let (vehicle_id, vehicle_label, vehicle_license_plate, vehicle_wheelchair_accessible) = match &v.vehicle {
        Some(d) => (clone_opt(&d.id), clone_opt(&d.label), clone_opt(&d.license_plate), d.wheelchair_accessible),
        None => (None, None, None, None),
    };
    RVehiclePosition {
        file_index: fi,
        id,
        trip_id,
        route_id,
        direction_id,
        start_time,
        start_date,
        schedule_relationship,
        latitude,
        longitude,
        bearing,
        odometer,
        speed,
        current_stop_sequence: v.current_stop_sequence,
        stop_id: clone_opt(&v.stop_id),
        current_status: v.current_status,
        timestamp: v.timestamp,
        congestion_level: v.congestion_level,
        occupancy_status: v.occupancy_status,
        occupancy_percentage: v.occupancy_percentage,
        vehicle_id,
        vehicle_label,
        vehicle_license_plate,
        vehicle_wheelchair_accessible,
    }
}

/// The vehicle positions of the feeds (the files of one archive, or one
/// file), as rows, with the ids that were replaced because they were met
/// before in their file.
pub fn read_gtfsrt_positions(feeds: &Vec<FeedMessage>) -> (res: (
    Vec<RVehiclePosition>,
    Vec<ReplacedId>,
))
    ensures
        res.0.deep_view() == position_rows(feeds.deep_view()).0,
        res.1.deep_view() == position_rows(feeds.deep_view()).1,
{
    let mut rows: Vec<RVehiclePosition> = Vec::new();
    let mut replaced: Vec<ReplacedId> = Vec::new();
    let mut i: usize = 0;
    while i < feeds.len()
        invariant
            0 <= i <= feeds@.len(),
            rows.deep_view() == position_rows(feeds.deep_view().take(i as int)).0,
            replaced.deep_view() == position_rows(feeds.deep_view().take(i as int)).1,
        decreases feeds@.len() - i,
    {
        let es = &feeds[i].entity;
        // ids are expected to be unique only within a file
        let mut dedup = IdDeduplicator::new();
        let ghost rows0 = rows.deep_view();
        let ghost replaced0 = replaced.deep_view();
        let mut j: usize = 0;
        assert(es.deep_view().take(0) =~= Seq::<SpecFeedEntity>::empty());
        assert(rows.deep_view() =~= rows0 + Seq::<SpecRVehiclePosition>::empty());
        assert(replaced.deep_view() =~= replaced0 + Seq::<(Seq<char>, Seq<char>)>::empty());
        while j < es.len()
            invariant
                0 <= j <= es@.len(),
                es == &feeds[i as int].entity,
                dedup@ == position_file(i as nat, es.deep_view().take(j as int)).0,
                rows.deep_view() == rows0 + position_file(i as nat, es.deep_view().take(j as int)).1,
                replaced.deep_view() == replaced0 + position_file(i as nat, es.deep_view().take(j as int)).2,
            decreases es@.len() - j,
        {
            let ghost esv = es.deep_view();
            assert(esv.take(j + 1).drop_last() =~= esv.take(j as int));
            assert(esv.take(j + 1).last() == esv[j as int]);
            proof {
                lemma_position_file_len(i as nat, esv.take(j as int));
            }
            let entity = &es[j];
            match &entity.vehicle {
                None => {},
                Some(v) => {
                    let id = take_id(&mut dedup, &entity.id, &mut replaced);
                    assert(esv[j as int].id == entity.id@);
                    let row = position_row_of(i, id, v);
                    let ghost rv = row.deep_view();
                    let ghost r0 = rows.deep_view();
                    rows.push(row);
                    assert(rows.deep_view() =~= r0.push(rv));
                    assert(rows.deep_view() =~= rows0 + position_file(i as nat, esv.take(j + 1)).1);
                    assert(replaced.deep_view() =~= replaced0 + position_file(i as nat, esv.take(j + 1)).2);
                },
            }
            j += 1;
        }
        proof {
            let fs = feeds.deep_view();
            assert(es.deep_view().take(es@.len() as int) =~= es.deep_view());
            assert(fs.take(i + 1).drop_last() =~= fs.take(i as int));
            assert(fs.take(i + 1).last() == fs[i as int]);
        }
        i += 1;
    }
    assert(feeds.deep_view().take(feeds@.len() as int) =~= feeds.deep_view());
    (rows, replaced)
}

} // verus!
