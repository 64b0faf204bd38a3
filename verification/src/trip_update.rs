//! Trip updates as rows: one row for each stop time update of each trip
//! update, or one row with the stop time fields missing where a trip update
//! has none (a canceled trip, say).

use crate::model::{
    FeedMessage, SpecFeedEntity, SpecFeedMessage, SpecStopTimeEvent, SpecStopTimeUpdate, SpecTripUpdate,
    StopTimeUpdate, TripUpdate,
};
use crate::dedup::{lemma_next_id_fresh, next_id, note_replacement, take_id, IdDeduplicator, ReplacedId};
use crate::rows::{clone_opt, or_none};
use vstd::prelude::*;

verus! {

/// One stop time update of a trip update, with the fields of its trip and
/// vehicle. `feed_index` counts the trip updates of the file, from 0.
pub struct RStopTimeUpdate {
    pub file_index: usize,
    pub feed_index: i32,
    pub id: String,
    pub trip_id: Option<String>,
    pub route_id: Option<String>,
    pub direction_id: Option<u32>,
    pub start_time: Option<String>,
    pub start_date: Option<String>,
    pub trip_schedule_relationship: Option<i32>,
    pub modifications_id: Option<String>,
    pub vehicle_id: Option<String>,
    pub vehicle_label: Option<String>,
    pub license_plate: Option<String>,
    pub wheelchair_accessible: Option<i32>,
    pub stop_sequence: Option<u32>,
    pub stop_id: Option<String>,
    pub arrival_delay: Option<i32>,
    pub arrival_time: Option<i64>,
    pub arrival_scheduled_time: Option<i64>,
    pub arrival_uncertainty: Option<i32>,
    pub departure_delay: Option<i32>,
    pub departure_time: Option<i64>,
    pub departure_scheduled_time: Option<i64>,
    pub departure_uncertainty: Option<i32>,
    pub departure_occupancy_status: Option<i32>,
    pub stop_schedule_relationship: Option<i32>,
}

/// The value of an `RStopTimeUpdate`.
#[verifier::ext_equal]
pub struct SpecRStopTimeUpdate {
    pub file_index: nat,
    pub feed_index: i32,
    pub id: Seq<char>,
    pub trip_id: Option<Seq<char>>,
    pub route_id: Option<Seq<char>>,
    pub direction_id: Option<u32>,
    pub start_time: Option<Seq<char>>,
    pub start_date: Option<Seq<char>>,
    pub trip_schedule_relationship: Option<i32>,
    pub modifications_id: Option<Seq<char>>,
    pub vehicle_id: Option<Seq<char>>,
    pub vehicle_label: Option<Seq<char>>,
    pub license_plate: Option<Seq<char>>,
    pub wheelchair_accessible: Option<i32>,
    pub stop_sequence: Option<u32>,
    pub stop_id: Option<Seq<char>>,
    pub arrival_delay: Option<i32>,
    pub arrival_time: Option<i64>,
    pub arrival_scheduled_time: Option<i64>,
    pub arrival_uncertainty: Option<i32>,
    pub departure_delay: Option<i32>,
    pub departure_time: Option<i64>,
    pub departure_scheduled_time: Option<i64>,
    pub departure_uncertainty: Option<i32>,
    pub departure_occupancy_status: Option<i32>,
    pub stop_schedule_relationship: Option<i32>,
}

impl DeepView for RStopTimeUpdate {
    type V = SpecRStopTimeUpdate;

    open spec fn deep_view(&self) -> SpecRStopTimeUpdate {
        SpecRStopTimeUpdate {
            file_index: self.file_index as nat,
            feed_index: self.feed_index,
            id: self.id@,
            trip_id: self.trip_id.deep_view(),
            route_id: self.route_id.deep_view(),
            direction_id: self.direction_id,
            start_time: self.start_time.deep_view(),
            start_date: self.start_date.deep_view(),
            trip_schedule_relationship: self.trip_schedule_relationship,
            modifications_id: self.modifications_id.deep_view(),
            vehicle_id: self.vehicle_id.deep_view(),
            vehicle_label: self.vehicle_label.deep_view(),
            license_plate: self.license_plate.deep_view(),
            wheelchair_accessible: self.wheelchair_accessible,
            stop_sequence: self.stop_sequence,
            stop_id: self.stop_id.deep_view(),
            arrival_delay: self.arrival_delay,
            arrival_time: self.arrival_time,
            arrival_scheduled_time: self.arrival_scheduled_time,
            arrival_uncertainty: self.arrival_uncertainty,
            departure_delay: self.departure_delay,
            departure_time: self.departure_time,
            departure_scheduled_time: self.departure_scheduled_time,
            departure_uncertainty: self.departure_uncertainty,
            departure_occupancy_status: self.departure_occupancy_status,
            stop_schedule_relationship: self.stop_schedule_relationship,
        }
    }
}

/// The row of trip update `u`, the `idx`-th of file `fi`, read under id
/// `id`, for stop time update `s` (none: the stop time fields are missing).
pub open spec fn update_row(
    fi: nat,
    idx: nat,
    id: Seq<char>,
    u: SpecTripUpdate,
    s: Option<SpecStopTimeUpdate>,
) -> SpecRStopTimeUpdate {
    let arr = match s {
        Some(st) => st.arrival,
        None => None,
    };
    let dep = match s {
        Some(st) => st.departure,
        None => None,
    };
    SpecRStopTimeUpdate {
        file_index: fi,
        feed_index: idx as i32,
        id,
        trip_id: u.trip.trip_id,
        route_id: u.trip.route_id,
        direction_id: u.trip.direction_id,
        start_time: u.trip.start_time,
        start_date: u.trip.start_date,
        trip_schedule_relationship: u.trip.schedule_relationship,
        modifications_id: match u.trip.modified_trip {
            Some(m) => m.modifications_id,
            None => None,
        },
        vehicle_id: match u.vehicle {
            Some(v) => v.id,
            None => None,
        },
        vehicle_label: match u.vehicle {
            Some(v) => v.label,
            None => None,
        },
        license_plate: match u.vehicle {
            Some(v) => v.license_plate,
            None => None,
        },
        wheelchair_accessible: match u.vehicle {
            Some(v) => v.wheelchair_accessible,
            None => None,
        },
        stop_sequence: match s {
            Some(st) => st.stop_sequence,
            None => None,
        },
        stop_id: match s {
            Some(st) => st.stop_id,
            None => None,
        },
        arrival_delay: match arr {
            Some(a) => a.delay,
            None => None,
        },
        arrival_time: match arr {
            Some(a) => a.time,
            None => None,
        },
        arrival_scheduled_time: match arr {
            Some(a) => a.scheduled_time,
            None => None,
        },
        arrival_uncertainty: match arr {
            Some(a) => a.uncertainty,
            None => None,
        },
        departure_delay: match dep {
            Some(d) => d.delay,
            None => None,
        },
        departure_time: match dep {
            Some(d) => d.time,
            None => None,
        },
        departure_scheduled_time: match dep {
            Some(d) => d.scheduled_time,
            None => None,
        },
        departure_uncertainty: match dep {
            Some(d) => d.uncertainty,
            None => None,
        },
        departure_occupancy_status: match s {
            Some(st) => st.departure_occupancy_status,
            None => None,
        },
        stop_schedule_relationship: match s {
            Some(st) => st.schedule_relationship,
            None => None,
        },
    }
}

/// The rows of one trip update: one per stop time update, or one if it has
/// none.
pub open spec fn trip_update_rows(fi: nat, idx: nat, id: Seq<char>, u: SpecTripUpdate) -> Seq<
    SpecRStopTimeUpdate,
> {
    or_none(u.stop_time_update).map_values(|s: Option<SpecStopTimeUpdate>| update_row(fi, idx, id, u, s))
}

/// Reading the entities of file `fi` in order: the ids handed out (a
/// repeated id is replaced), the rows, and the ids that were replaced. Each
/// trip update is numbered by how many come before it in the file.
pub open spec fn update_file(fi: nat, es: Seq<SpecFeedEntity>) -> (
    Seq<Seq<char>>,
    Seq<SpecRStopTimeUpdate>,
    Seq<(Seq<char>, Seq<char>)>,
)
    decreases es.len(),
{
    if es.len() == 0 {
        (Seq::empty(), Seq::empty(), Seq::empty())
    } else {
        let prev = update_file(fi, es.drop_last());
        let e = es.last();
        match e.trip_update {
            None => prev,
            Some(u) => {
                let id = next_id(prev.0, e.id);
                (
                    prev.0.push(id),
                    prev.1 + trip_update_rows(fi, prev.0.len(), id, u),
                    note_replacement(prev.2, e.id, id),
                )
            },
        }
    }
}

/// The rows and replaced ids of the feeds, file after file.
pub open spec fn update_rows(feeds: Seq<SpecFeedMessage>) -> (
    Seq<SpecRStopTimeUpdate>,
    Seq<(Seq<char>, Seq<char>)>,
)
    decreases feeds.len(),
{
    if feeds.len() == 0 {
        (Seq::empty(), Seq::empty())
    } else {
        let prev = update_rows(feeds.drop_last());
        let f = update_file((feeds.len() - 1) as nat, feeds.last().entity);
        (prev.0 + f.1, prev.1 + f.2)
    }
}

/// A file hands out at most one id for each of its entities.
pub proof fn lemma_update_file_len(fi: nat, es: Seq<SpecFeedEntity>)
    ensures
        update_file(fi, es).0.len() <= es.len(),
    decreases es.len(),
{
    if es.len() > 0 {
        lemma_update_file_len(fi, es.drop_last());
    }
}

/// Within one file, trip updates are read under ids that are all different.
pub proof fn lemma_update_ids_distinct(fi: nat, es: Seq<SpecFeedEntity>)
    ensures
        update_file(fi, es).0.no_duplicates(),
    decreases es.len(),
{
    if es.len() > 0 {
        lemma_update_ids_distinct(fi, es.drop_last());
        let prev = update_file(fi, es.drop_last()).0;
        let e = es.last();
        if e.trip_update is Some {
            lemma_next_id_fresh(prev, e.id);
            let ids = prev.push(next_id(prev, e.id));
            assert forall|a: int, b: int| 0 <= a < ids.len() && 0 <= b < ids.len() && a != b implies ids[a]
                != ids[b] by {
                if a == prev.len() {
                    assert(prev[b] == ids[b]);
                    assert(prev.contains(prev[b]));
                } else if b == prev.len() {
                    assert(prev[a] == ids[a]);
                    assert(prev.contains(prev[a]));
                } else {
                    assert(prev[a] == ids[a] && prev[b] == ids[b]);
                }
            }
        }
    }
}

/// All rows of one trip update carry its id and its number in the file.
pub proof fn lemma_trip_update_rows_share(fi: nat, idx: nat, id: Seq<char>, u: SpecTripUpdate)
    ensures
        forall|k: int|
            0 <= k < trip_update_rows(fi, idx, id, u).len() ==> (#[trigger] trip_update_rows(fi, idx, id, u)[k]).id
                == id && trip_update_rows(fi, idx, id, u)[k].feed_index == idx as i32,
{
}

/// Each row of a file carries the id its trip update was read under, and
/// that trip update's number in the file is the id's place among the ids
/// handed out.
pub proof fn lemma_update_file_rows(fi: nat, es: Seq<SpecFeedEntity>)
    requires
        es.len() <= i32::MAX,
    ensures
        forall|j: int|
            #![trigger update_file(fi, es).1[j]]
            0 <= j < update_file(fi, es).1.len() ==> {
                let r = update_file(fi, es).1[j];
                &&& 0 <= r.feed_index < update_file(fi, es).0.len()
                &&& r.id == update_file(fi, es).0[r.feed_index as int]
            },
    decreases es.len(),
{
    if es.len() > 0 {
        let prev = update_file(fi, es.drop_last());
        lemma_update_file_rows(fi, es.drop_last());
        lemma_update_file_len(fi, es.drop_last());
        let e = es.last();
        if let Some(u) = e.trip_update {
            let id = next_id(prev.0, e.id);
            let ids = prev.0.push(id);
            let new_rows = trip_update_rows(fi, prev.0.len(), id, u);
            lemma_trip_update_rows_share(fi, prev.0.len(), id, u);
            let rows = prev.1 + new_rows;
            assert(rows == update_file(fi, es).1);
            assert(ids == update_file(fi, es).0);
            assert forall|j: int| 0 <= j < rows.len() implies {
                let r = #[trigger] rows[j];
                &&& 0 <= r.feed_index < ids.len()
                &&& r.id == ids[r.feed_index as int]
            } by {
                if j < prev.1.len() {
                    assert(rows[j] == prev.1[j]);
                } else {
                    assert(rows[j] == new_rows[j - prev.1.len()]);
                }
            }
        }
    }
}

/// Within one file, two rows carry the same id exactly when they come from
/// the same trip update: all rows of a trip update share its id, and rows of
/// two trip updates never do, even where the feed repeats an entity id.
pub proof fn lemma_update_rows_grouped(fi: nat, es: Seq<SpecFeedEntity>)
    requires
        es.len() <= i32::MAX,
    ensures
        forall|j: int, k: int|
            0 <= j < update_file(fi, es).1.len() && 0 <= k < update_file(fi, es).1.len() ==> (
            (#[trigger] update_file(fi, es).1[j]).id == (#[trigger] update_file(fi, es).1[k]).id
                <==> update_file(fi, es).1[j].feed_index == update_file(fi, es).1[k].feed_index),
{
    lemma_update_file_rows(fi, es);
    lemma_update_ids_distinct(fi, es);
}

/// The delay, time, scheduled time and uncertainty of a stop time event, each
/// none where the event is missing.
pub open spec fn event_fields(e: Option<SpecStopTimeEvent>) -> (Option<i32>, Option<i64>, Option<i64>, Option<i32>) {
    match e {
        Some(x) => (x.delay, x.time, x.scheduled_time, x.uncertainty),
        None => (None, None, None, None),
    }
}

/// The rows of a trip update follow its stop time updates one for one (a
/// single row where it has none). Each row takes its stop, arrival and
/// departure fields from its own stop time update (the arrival fields from
/// the arrival, the departure fields from the departure), all missing on
/// the single row of an update without stop time updates; every row takes
/// its trip and vehicle fields from the trip update.
pub proof fn lemma_trip_update_rows_fields(fi: nat, idx: nat, id: Seq<char>, u: SpecTripUpdate)
    ensures
        u.stop_time_update.len() == 0 ==> trip_update_rows(fi, idx, id, u).len() == 1,
        u.stop_time_update.len() > 0 ==> trip_update_rows(fi, idx, id, u).len() == u.stop_time_update.len(),
        forall|k: int|
            #![trigger trip_update_rows(fi, idx, id, u)[k]]
            0 <= k < trip_update_rows(fi, idx, id, u).len() ==> {
                let r = trip_update_rows(fi, idx, id, u)[k];
                &&& r.file_index == fi
                &&& r.trip_id == u.trip.trip_id
                &&& r.route_id == u.trip.route_id
                &&& r.direction_id == u.trip.direction_id
                &&& r.start_time == u.trip.start_time
                &&& r.start_date == u.trip.start_date
                &&& r.trip_schedule_relationship == u.trip.schedule_relationship
                &&& r.vehicle_id == (match u.vehicle {
                    Some(v) => v.id,
                    None => None,
                })
                &&& r.vehicle_label == (match u.vehicle {
                    Some(v) => v.label,
                    None => None,
                })
                &&& r.license_plate == (match u.vehicle {
                    Some(v) => v.license_plate,
                    None => None,
                })
                &&& r.wheelchair_accessible == (match u.vehicle {
                    Some(v) => v.wheelchair_accessible,
                    None => None,
                })
                &&& u.stop_time_update.len() > 0 ==> {
                    let st = u.stop_time_update[k];
                    &&& r.stop_sequence == st.stop_sequence
                    &&& r.stop_id == st.stop_id
                    &&& (r.arrival_delay, r.arrival_time, r.arrival_scheduled_time, r.arrival_uncertainty)
                        == event_fields(st.arrival)
                    &&& (r.departure_delay, r.departure_time, r.departure_scheduled_time, r.departure_uncertainty)
                        == event_fields(st.departure)
                    &&& r.departure_occupancy_status == st.departure_occupancy_status
                    &&& r.stop_schedule_relationship == st.schedule_relationship
                }
                &&& u.stop_time_update.len() == 0 ==> {
                    &&& r.stop_sequence is None
                    &&& r.stop_id is None
                    &&& (r.arrival_delay, r.arrival_time, r.arrival_scheduled_time, r.arrival_uncertainty)
                        == event_fields(None)
                    &&& (r.departure_delay, r.departure_time, r.departure_scheduled_time, r.departure_uncertainty)
                        == event_fields(None)
                    &&& r.departure_occupancy_status is None
                    &&& r.stop_schedule_relationship is None
                }
            },
{
}

fn update_row_of(fi: usize, idx: usize, id: &String, u: &TripUpdate, s: Option<&StopTimeUpdate>) -> (r:
    RStopTimeUpdate)
    ensures
        r.deep_view() == update_row(
            fi as nat,
            idx as nat,
            id@,
            u.deep_view(),
            match s {
                Some(st) => Some(st.deep_view()),
                None => None,
            },
        ),
{
    let modifications_id = match &u.trip.modified_trip {
        Some(m) => clone_opt(&m.modifications_id),
        None => None,
    };
    let (vehicle_id, vehicle_label, license_plate, wheelchair_accessible) = match &u.vehicle {
        Some(v) => (
            clone_opt(&v.id),
            clone_opt(&v.label),
            clone_opt(&v.license_plate),
            v.wheelchair_accessible,
        ),
        None => (None, None, None, None),
    };
    let (stop_sequence, stop_id, departure_occupancy_status, stop_schedule_relationship) = match s {
        Some(st) => (
            st.stop_sequence,
            clone_opt(&st.stop_id),
            st.departure_occupancy_status,
            st.schedule_relationship,
        ),
        None => (None, None, None, None),
    };
    let (arrival_delay, arrival_time, arrival_scheduled_time, arrival_uncertainty) = match s {
        Some(st) => match &st.arrival {
            Some(a) => (a.delay, a.time, a.scheduled_time, a.uncertainty),
            None => (None, None, None, None),
        },
        None => (None, None, None, None),
    };
    let (departure_delay, departure_time, departure_scheduled_time, departure_uncertainty) =
        match s {
        Some(st) => match &st.departure {
            Some(d) => (d.delay, d.time, d.scheduled_time, d.uncertainty),
            None => (None, None, None, None),
        },
        None => (None, None, None, None),
    };
    RStopTimeUpdate {
        file_index: fi,
        feed_index: idx as i32,
        id: id.clone(),
        trip_id: clone_opt(&u.trip.trip_id),
        route_id: clone_opt(&u.trip.route_id),
        direction_id: u.trip.direction_id,
        start_time: clone_opt(&u.trip.start_time),
        start_date: clone_opt(&u.trip.start_date),
        trip_schedule_relationship: u.trip.schedule_relationship,
        modifications_id,
        vehicle_id,
        vehicle_label,
        license_plate,
        wheelchair_accessible,
        stop_sequence,
        stop_id,
        arrival_delay,
        arrival_time,
        arrival_scheduled_time,
        arrival_uncertainty,
        departure_delay,
        departure_time,
        departure_scheduled_time,
        departure_uncertainty,
        departure_occupancy_status,
        stop_schedule_relationship,
    }
}

fn push_trip_update_rows(fi: usize, idx: usize, id: &String, u: &TripUpdate, rows: &mut Vec<RStopTimeUpdate>)
    ensures
        final(rows).deep_view() == old(rows).deep_view() + trip_update_rows(
            fi as nat,
            idx as nat,
            id@,
            u.deep_view(),
        ),
{
    let ghost uv = u.deep_view();
    let ghost before = rows.deep_view();
    let stus = &u.stop_time_update;
    if stus.len() == 0 {
        let row = update_row_of(fi, idx, id, u, None);
        let ghost rv = row.deep_view();
        rows.push(row);
        assert(rows.deep_view() =~= before.push(rv));
        assert(trip_update_rows(fi as nat, idx as nat, id@, uv) =~= seq![rv]);
        return;
    }
    let ghost f = |s: SpecStopTimeUpdate| update_row(fi as nat, idx as nat, id@, uv, Some(s));
    let mut j: usize = 0;
    while j < stus.len()
        invariant
            0 <= j <= stus@.len(),
            uv == u.deep_view(),
            stus == &u.stop_time_update,
            f == (|s: SpecStopTimeUpdate| update_row(fi as nat, idx as nat, id@, uv, Some(s))),
            rows.deep_view() == before + stus.deep_view().take(j as int).map_values(f),
        decreases stus@.len() - j,
    {
        let row = update_row_of(fi, idx, id, u, Some(&stus[j]));
        let ghost rv = row.deep_view();
        let ghost prev = rows.deep_view();
        rows.push(row);
        assert(rows.deep_view() =~= prev.push(rv));
        assert(stus.deep_view().take(j + 1).map_values(f) =~= stus.deep_view().take(
            j as int,
        ).map_values(f).push(rv));
        j += 1;
    }
    assert(stus.deep_view().take(stus@.len() as int) =~= stus.deep_view());
    assert(trip_update_rows(fi as nat, idx as nat, id@, uv) =~= stus.deep_view().map_values(f));
}

/// The trip updates of the feeds (the files of one archive, or one file), as
/// rows, with the ids that were replaced because they were met before in
/// their file.
pub fn read_gtfsrt_trip_updates_internal(feeds: &Vec<FeedMessage>) -> (res: (
    Vec<RStopTimeUpdate>,
    Vec<ReplacedId>,
))
    ensures
        res.0.deep_view() == update_rows(feeds.deep_view()).0,
        res.1.deep_view() == update_rows(feeds.deep_view()).1,
{
    let mut rows: Vec<RStopTimeUpdate> = Vec::new();
    let mut replaced: Vec<ReplacedId> = Vec::new();
    let mut i: usize = 0;
    while i < feeds.len()
        invariant
            0 <= i <= feeds@.len(),
            rows.deep_view() == update_rows(feeds.deep_view().take(i as int)).0,
            replaced.deep_view() == update_rows(feeds.deep_view().take(i as int)).1,
        decreases feeds@.len() - i,
    {
        let es = &feeds[i].entity;
        // ids are expected to be unique only within a file
        let mut dedup = IdDeduplicator::new();
        let ghost rows0 = rows.deep_view();
        let ghost replaced0 = replaced.deep_view();
        let mut j: usize = 0;
        assert(es.deep_view().take(0) =~= Seq::<SpecFeedEntity>::empty());
        assert(rows.deep_view() =~= rows0 + Seq::<SpecRStopTimeUpdate>::empty());
        assert(replaced.deep_view() =~= replaced0 + Seq::<(Seq<char>, Seq<char>)>::empty());
        while j < es.len()
            invariant
                0 <= j <= es@.len(),
                es == &feeds[i as int].entity,
                dedup@ == update_file(i as nat, es.deep_view().take(j as int)).0,
                dedup@.len() <= j,
                rows.deep_view() == rows0 + update_file(i as nat, es.deep_view().take(j as int)).1,
                replaced.deep_view() == replaced0 + update_file(i as nat, es.deep_view().take(j as int)).2,
            decreases es@.len() - j,
        {
            let ghost esv = es.deep_view();
            assert(esv.take(j + 1).drop_last() =~= esv.take(j as int));
            assert(esv.take(j + 1).last() == esv[j as int]);
            let entity = &es[j];
            match &entity.trip_update {
                None => {},
                Some(u) => {
                    let idx = dedup.len();
                    let id = take_id(&mut dedup, &entity.id, &mut replaced);
                    assert(esv[j as int].id == entity.id@);
                    let ghost r0 = rows.deep_view();
                    push_trip_update_rows(i, idx, &id, u, &mut rows);
                    assert(rows.deep_view() =~= rows0 + update_file(i as nat, esv.take(j + 1)).1);
                    assert(replaced.deep_view() =~= replaced0 + update_file(i as nat, esv.take(j + 1)).2);
                },
            }
            j += 1;
        }
        proof {
            let fs = feeds.deep_view();
            assert(es.deep_view().take(es@.len() as int) =~= es.deep_view());
            assert(fs.take(i + 1).drop_last() =~= fs.take(i as int));
            assert(fs.take(i + 1).last() == fs[i as int]);
        }
        i += 1;
    }
    assert(feeds.deep_view().take(feeds@.len() as int) =~= feeds.deep_view());
    (rows, replaced)
}

} // verus!
