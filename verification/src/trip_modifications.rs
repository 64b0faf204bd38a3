//! Trip modifications as rows. For each trip that a trip modifications entity
//! selects, each of its start times (or none), each of its service dates,
//! each modification and each replacement stop (or none), one row. Ids are
//! made unique within each file, and what the reader should be told of each
//! entity is returned as warnings.

use crate::dedup::{duplicate_candidate, lemma_next_id_fresh, next_id, IdDeduplicator};
use crate::model::{
    FeedMessage, Modification, ReplacementStop, SelectedTrips, SpecFeedEntity, SpecFeedMessage,
    SpecModification, SpecReplacementStop, SpecSelectedTrips, SpecStopSelector, SpecTripModifications,
    TripModifications,
};
use crate::rows::{
    clone_opt, concat_map, lemma_concat_map_all, lemma_concat_map_all_satisfy, lemma_concat_map_take,
    lemma_nonempty_view, or_none,
};
use crate::util::ensure_nonempty;
use vstd::prelude::*;

verus! {

/// One replacement of one modification of one selected trip, on one service
/// date and start time.
pub struct RTripModification {
    pub id: String,
    pub trip_id: String,
    pub shape_id: Option<String>,
    pub start_time: Option<String>,
    pub service_date: String,
    pub start_stop_sequence: Option<u32>,
    pub start_stop_id: Option<String>,
    pub end_stop_sequence: Option<u32>,
    pub end_stop_id: Option<String>,
    pub propagated_modification_delay: Option<i32>,
    pub replacement_stop_id: Option<String>,
    pub replacement_travel_time_to_stop: Option<i32>,
    pub service_alert_id: Option<String>,
    pub last_modified_time: Option<u64>,
    pub file_timestamp: Option<u64>,
    pub file_index: usize,
}

/// The value of an `RTripModification`.
#[verifier::ext_equal]
pub struct SpecRTripModification {
    pub id: Seq<char>,
    pub trip_id: Seq<char>,
    pub shape_id: Option<Seq<char>>,
    pub start_time: Option<Seq<char>>,
    pub service_date: Seq<char>,
    pub start_stop_sequence: Option<u32>,
    pub start_stop_id: Option<Seq<char>>,
    pub end_stop_sequence: Option<u32>,
    pub end_stop_id: Option<Seq<char>>,
    pub propagated_modification_delay: Option<i32>,
    pub replacement_stop_id: Option<Seq<char>>,
    pub replacement_travel_time_to_stop: Option<i32>,
    pub service_alert_id: Option<Seq<char>>,
    pub last_modified_time: Option<u64>,
    pub file_timestamp: Option<u64>,
    pub file_index: nat,
}

impl DeepView for RTripModification {
    type V = SpecRTripModification;

    open spec fn deep_view(&self) -> SpecRTripModification {
        SpecRTripModification {
            id: self.id@,
            trip_id: self.trip_id@,
            shape_id: self.shape_id.deep_view(),
            start_time: self.start_time.deep_view(),
            service_date: self.service_date@,
            start_stop_sequence: self.start_stop_sequence,
            start_stop_id: self.start_stop_id.deep_view(),
            end_stop_sequence: self.end_stop_sequence,
            end_stop_id: self.end_stop_id.deep_view(),
            propagated_modification_delay: self.propagated_modification_delay,
            replacement_stop_id: self.replacement_stop_id.deep_view(),
            replacement_travel_time_to_stop: self.replacement_travel_time_to_stop,
            service_alert_id: self.service_alert_id.deep_view(),
            last_modified_time: self.last_modified_time,
            file_timestamp: self.file_timestamp,
            file_index: self.file_index as nat,
        }
    }
}

/// What the reader of trip modifications is told.
pub enum TripModificationsWarning {
    /// The id was met before in the file and is replaced.
    DuplicateId { id: String, replacement: String },
    /// The file holds trip modifications with this id.
    Found { id: String },
    /// They select no service date, so they give no row.
    NoServiceDates { id: String },
    /// They hold no modification, so they give no row.
    NoModifications { id: String },
    /// They select no trip, so they give no row.
    NoSelectedTrips { id: String },
    /// A selection (of the shape given) holds no trip, so it gives no row.
    NoTrips { id: String, shape_id: Option<String> },
}

/// The value of a `TripModificationsWarning`.
pub enum SpecTripModificationsWarning {
    DuplicateId { id: Seq<char>, replacement: Seq<char> },
    Found { id: Seq<char> },
    NoServiceDates { id: Seq<char> },
    NoModifications { id: Seq<char> },
    NoSelectedTrips { id: Seq<char> },
    NoTrips { id: Seq<char>, shape_id: Option<Seq<char>> },
}

impl DeepView for TripModificationsWarning {
    type V = SpecTripModificationsWarning;

    open spec fn deep_view(&self) -> SpecTripModificationsWarning {
        match self {
            TripModificationsWarning::DuplicateId { id, replacement } => SpecTripModificationsWarning::DuplicateId {
                id: id@,
                replacement: replacement@,
            },
            TripModificationsWarning::Found { id } => SpecTripModificationsWarning::Found { id: id@ },
            TripModificationsWarning::NoServiceDates { id } => SpecTripModificationsWarning::NoServiceDates {
                id: id@,
            },
            TripModificationsWarning::NoModifications { id } => SpecTripModificationsWarning::NoModifications {
                id: id@,
            },
            TripModificationsWarning::NoSelectedTrips { id } => SpecTripModificationsWarning::NoSelectedTrips {
                id: id@,
            },
            TripModificationsWarning::NoTrips { id, shape_id } => SpecTripModificationsWarning::NoTrips {
                id: id@,
                shape_id: shape_id.deep_view(),
            },
        }
    }
}

/// The row for one replacement stop `rs` (or none) of modification `m`.
pub open spec fn tm_row(
    fi: nat,
    ts: Option<u64>,
    id: Seq<char>,
    shape_id: Option<Seq<char>>,
    trip_id: Seq<char>,
    start_time: Option<Seq<char>>,
    service_date: Seq<char>,
    m: SpecModification,
    rs: Option<SpecReplacementStop>,
) -> SpecRTripModification {
    SpecRTripModification {
        id,
        trip_id,
        shape_id,
        start_time,
        service_date,
        start_stop_sequence: match m.start_stop_selector {
            Some(s) => s.stop_sequence,
            None => None,
        },
        start_stop_id: match m.start_stop_selector {
            Some(s) => s.stop_id,
            None => None,
        },
        end_stop_sequence: match m.end_stop_selector {
            Some(s) => s.stop_sequence,
            None => None,
        },
        end_stop_id: match m.end_stop_selector {
            Some(s) => s.stop_id,
            None => None,
        },
        propagated_modification_delay: m.propagated_modification_delay,
        replacement_stop_id: match rs {
            Some(s) => s.stop_id,
            None => None,
        },
        replacement_travel_time_to_stop: match rs {
            Some(s) => s.travel_time_to_stop,
            None => None,
        },
        service_alert_id: m.service_alert_id,
        last_modified_time: m.last_modified_time,
        file_timestamp: ts,
        file_index: fi,
    }
}

/// The rows of one modification: one per replacement stop, or one if it has
/// none.
pub open spec fn replacement_rows(
    fi: nat,
    ts: Option<u64>,
    id: Seq<char>,
    shape_id: Option<Seq<char>>,
    trip_id: Seq<char>,
    start_time: Option<Seq<char>>,
    service_date: Seq<char>,
    m: SpecModification,
) -> Seq<SpecRTripModification> {
    or_none(m.replacement_stops).map_values(
        |rs: Option<SpecReplacementStop>|
            tm_row(fi, ts, id, shape_id, trip_id, start_time, service_date, m, rs),
    )
}

pub open spec fn replacement_rows_of(
    fi: nat,
    ts: Option<u64>,
    id: Seq<char>,
    shape_id: Option<Seq<char>>,
    trip_id: Seq<char>,
    start_time: Option<Seq<char>>,
    service_date: Seq<char>,
) -> spec_fn(SpecModification) -> Seq<SpecRTripModification> {
    |m: SpecModification|
        replacement_rows(fi, ts, id, shape_id, trip_id, start_time, service_date, m)
}

/// The rows of one service date: those of each modification.
pub open spec fn date_rows(
    fi: nat,
    ts: Option<u64>,
    id: Seq<char>,
    shape_id: Option<Seq<char>>,
    trip_id: Seq<char>,
    start_time: Option<Seq<char>>,
    service_date: Seq<char>,
    tm: SpecTripModifications,
) -> Seq<SpecRTripModification> {
    concat_map(
        tm.modifications,
        replacement_rows_of(fi, ts, id, shape_id, trip_id, start_time, service_date),
    )
}

pub open spec fn date_rows_of(
    fi: nat,
    ts: Option<u64>,
    id: Seq<char>,
    shape_id: Option<Seq<char>>,
    trip_id: Seq<char>,
    start_time: Option<Seq<char>>,
    tm: SpecTripModifications,
) -> spec_fn(Seq<char>) -> Seq<SpecRTripModification> {
    |d: Seq<char>| date_rows(fi, ts, id, shape_id, trip_id, start_time, d, tm)
}

/// The rows of one start time (or none): those of each service date.
pub open spec fn start_rows(
    fi: nat,
    ts: Option<u64>,
    id: Seq<char>,
    shape_id: Option<Seq<char>>,
    trip_id: Seq<char>,
    start_time: Option<Seq<char>>,
    tm: SpecTripModifications,
) -> Seq<SpecRTripModification> {
    concat_map(tm.service_dates, date_rows_of(fi, ts, id, shape_id, trip_id, start_time, tm))
}

pub open spec fn start_rows_of(
    fi: nat,
    ts: Option<u64>,
    id: Seq<char>,
    shape_id: Option<Seq<char>>,
    trip_id: Seq<char>,
    tm: SpecTripModifications,
) -> spec_fn(Option<Seq<char>>) -> Seq<SpecRTripModification> {
    |s: Option<Seq<char>>| start_rows(fi, ts, id, shape_id, trip_id, s, tm)
}

/// The rows of one selected trip: those of each start time, or of none.
pub open spec fn trip_id_rows(
    fi: nat,
    ts: Option<u64>,
    id: Seq<char>,
    shape_id: Option<Seq<char>>,
    trip_id: Seq<char>,
    tm: SpecTripModifications,
) -> Seq<SpecRTripModification> {
    concat_map(or_none(tm.start_times), start_rows_of(fi, ts, id, shape_id, trip_id, tm))
}

pub open spec fn trip_id_rows_of(
    fi: nat,
    ts: Option<u64>,
    id: Seq<char>,
    shape_id: Option<Seq<char>>,
    tm: SpecTripModifications,
) -> spec_fn(Seq<char>) -> Seq<SpecRTripModification> {
    |t: Seq<char>| trip_id_rows(fi, ts, id, shape_id, t, tm)
}

/// The rows of one selection: those of each trip it selects.
pub open spec fn selected_rows(
    fi: nat,
    ts: Option<u64>,
    id: Seq<char>,
    st: SpecSelectedTrips,
    tm: SpecTripModifications,
) -> Seq<SpecRTripModification> {
    concat_map(st.trip_ids, trip_id_rows_of(fi, ts, id, st.shape_id, tm))
}

pub open spec fn selected_rows_of(fi: nat, ts: Option<u64>, id: Seq<char>, tm: SpecTripModifications) -> spec_fn(
    SpecSelectedTrips,
) -> Seq<SpecRTripModification> {
    |st: SpecSelectedTrips| selected_rows(fi, ts, id, st, tm)
}

/// The rows of trip modifications `tm` with id `id`, from file `fi` whose
/// header has timestamp `ts`: those of each selection.
pub open spec fn trip_modifications_rows(
    fi: nat,
    ts: Option<u64>,
    id: Seq<char>,
    tm: SpecTripModifications,
) -> Seq<SpecRTripModification> {
    concat_map(tm.selected_trips, selected_rows_of(fi, ts, id, tm))
}

fn clone_strings(v: &Vec<String>) -> (r: Vec<String>)
    ensures
        r.deep_view() == v.deep_view(),
{
    let mut r: Vec<String> = Vec::new();
    let mut i: usize = 0;
    while i < v.len()
        invariant
            0 <= i <= v@.len(),
            r.deep_view() == v.deep_view().take(i as int),
        decreases v@.len() - i,
    {
        let ghost before = r.deep_view();
        let c = v[i].clone();
        assert(c@ == v.deep_view()[i as int]);
        r.push(c);
        assert(r.deep_view() =~= before.push(v.deep_view()[i as int]));
        assert(v.deep_view().take(i + 1) =~= v.deep_view().take(i as int).push(v.deep_view()[i as int]));
        i += 1;
    }
    assert(v.deep_view().take(v@.len() as int) =~= v.deep_view());
    r
}

fn clone_replacement_stops(v: &Vec<ReplacementStop>) -> (r: Vec<ReplacementStop>)
    ensures
        r.deep_view() == v.deep_view(),
{
    let mut r: Vec<ReplacementStop> = Vec::new();
    let mut i: usize = 0;
    while i < v.len()
        invariant
            0 <= i <= v@.len(),
            r.deep_view() == v.deep_view().take(i as int),
        decreases v@.len() - i,
    {
        let s = ReplacementStop {
            travel_time_to_stop: v[i].travel_time_to_stop,
            stop_id: clone_opt(&v[i].stop_id),
        };
        let ghost before = r.deep_view();
        assert(s.deep_view() == v.deep_view()[i as int]);
        r.push(s);
        assert(r.deep_view() =~= before.push(v.deep_view()[i as int]));
        assert(v.deep_view().take(i + 1) =~= v.deep_view().take(i as int).push(v.deep_view()[i as int]));
        i += 1;
    }
    assert(v.deep_view().take(v@.len() as int) =~= v.deep_view());
    r
}

fn tm_row_of(
    fi: usize,
    ts: Option<u64>,
    id: &String,
    shape_id: &Option<String>,
    trip_id: &String,
    start_time: &Option<String>,
    service_date: &String,
    m: &Modification,
    rs: &Option<ReplacementStop>,
) -> (r: RTripModification)
    ensures
        r.deep_view() == tm_row(
            fi as nat,
            ts,
            id@,
            shape_id.deep_view(),
            trip_id@,
            start_time.deep_view(),
            service_date@,
            m.deep_view(),
            rs.deep_view(),
        ),
{
    let (start_stop_sequence, start_stop_id) = match &m.start_stop_selector {
        Some(s) => (s.stop_sequence, clone_opt(&s.stop_id)),
        None => (None, None),
    };
    let (end_stop_sequence, end_stop_id) = match &m.end_stop_selector {
        Some(s) => (s.stop_sequence, clone_opt(&s.stop_id)),
        None => (None, None),
    };
    let (replacement_stop_id, replacement_travel_time_to_stop) = match rs {
        Some(s) => (clone_opt(&s.stop_id), s.travel_time_to_stop),
        None => (None, None),
    };
    RTripModification {
        id: id.clone(),
        trip_id: trip_id.clone(),
        shape_id: clone_opt(shape_id),
        start_time: clone_opt(start_time),
        service_date: service_date.clone(),
        start_stop_sequence,
        start_stop_id,
        end_stop_sequence,
        end_stop_id,
        propagated_modification_delay: m.propagated_modification_delay,
        replacement_stop_id,
        replacement_travel_time_to_stop,
        service_alert_id: clone_opt(&m.service_alert_id),
        last_modified_time: m.last_modified_time,
        file_timestamp: ts,
        file_index: fi,
    }
}

fn push_replacement_rows(
    fi: usize,
    ts: Option<u64>,
    id: &String,
    shape_id: &Option<String>,
    trip_id: &String,
    start_time: &Option<String>,
    service_date: &String,
    m: &Modification,
    rows: &mut Vec<RTripModification>,
)
    ensures
        final(rows).deep_view() == old(rows).deep_view() + replacement_rows(
            fi as nat,
            ts,
            id@,
            shape_id.deep_view(),
            trip_id@,
            start_time.deep_view(),
            service_date@,
            m.deep_view(),
        ),
{
    let copies = clone_replacement_stops(&m.replacement_stops);
    let ghost copies_view = copies@;
    let stops = ensure_nonempty(copies);
    proof {
        lemma_nonempty_view(copies_view, stops@);
    }
    let ghost f = |rs: Option<SpecReplacementStop>|
        tm_row(
            fi as nat,
            ts,
            id@,
            shape_id.deep_view(),
            trip_id@,
            start_time.deep_view(),
            service_date@,
            m.deep_view(),
            rs,
        );
    let ghost before = rows.deep_view();
    let mut k: usize = 0;
    while k < stops.len()
        invariant
            0 <= k <= stops@.len(),
            stops.deep_view() == or_none(m.deep_view().replacement_stops),
            f == (|rs: Option<SpecReplacementStop>|
                tm_row(
                    fi as nat,
                    ts,
                    id@,
                    shape_id.deep_view(),
                    trip_id@,
                    start_time.deep_view(),
                    service_date@,
                    m.deep_view(),
                    rs,
                )),
            rows.deep_view() == before + stops.deep_view().take(k as int).map_values(f),
        decreases stops@.len() - k,
    {
        let row = tm_row_of(fi, ts, id, shape_id, trip_id, start_time, service_date, m, &stops[k]);
        let ghost w = row.deep_view();
        let ghost prev = rows.deep_view();
        rows.push(row);
        assert(rows.deep_view() =~= prev.push(w));
        assert(stops.deep_view().take(k + 1).map_values(f) =~= stops.deep_view().take(
            k as int,
        ).map_values(f).push(w));
        k += 1;
    }
    assert(stops.deep_view().take(stops@.len() as int) =~= stops.deep_view());
}

fn push_date_rows(
    fi: usize,
    ts: Option<u64>,
    id: &String,
    shape_id: &Option<String>,
    trip_id: &String,
    start_time: &Option<String>,
    service_date: &String,
    tm: &TripModifications,
    rows: &mut Vec<RTripModification>,
)
    ensures
        final(rows).deep_view() == old(rows).deep_view() + date_rows(
            fi as nat,
            ts,
            id@,
            shape_id.deep_view(),
            trip_id@,
            start_time.deep_view(),
            service_date@,
            tm.deep_view(),
        ),
{
    let mods = &tm.modifications;
    let ghost f = replacement_rows_of(
        fi as nat,
        ts,
        id@,
        shape_id.deep_view(),
        trip_id@,
        start_time.deep_view(),
        service_date@,
    );
    let ghost before = rows.deep_view();
    let mut j: usize = 0;
    assert(mods.deep_view().take(0) =~= Seq::<SpecModification>::empty());
    assert(rows.deep_view() =~= before + concat_map(mods.deep_view().take(0), f));
    while j < mods.len()
        invariant
            0 <= j <= mods@.len(),
            mods == &tm.modifications,
            f == replacement_rows_of(
                fi as nat,
                ts,
                id@,
                shape_id.deep_view(),
                trip_id@,
                start_time.deep_view(),
                service_date@,
            ),
            rows.deep_view() == before + concat_map(mods.deep_view().take(j as int), f),
        decreases mods@.len() - j,
    {
        proof {
            lemma_concat_map_take(mods.deep_view(), j as int, f);
        }
        push_replacement_rows(fi, ts, id, shape_id, trip_id, start_time, service_date, &mods[j], rows);
        j += 1;
    }
    proof {
        lemma_concat_map_all(mods.deep_view(), f);
    }
}

fn push_start_rows(
    fi: usize,
    ts: Option<u64>,
    id: &String,
    shape_id: &Option<String>,
    trip_id: &String,
    start_time: &Option<String>,
    tm: &TripModifications,
    rows: &mut Vec<RTripModification>,
)
    ensures
        final(rows).deep_view() == old(rows).deep_view() + start_rows(
            fi as nat,
            ts,
            id@,
            shape_id.deep_view(),
            trip_id@,
            start_time.deep_view(),
            tm.deep_view(),
        ),
{
    let dates = &tm.service_dates;
    let ghost f = date_rows_of(
        fi as nat,
        ts,
        id@,
        shape_id.deep_view(),
        trip_id@,
        start_time.deep_view(),
        tm.deep_view(),
    );
    let ghost before = rows.deep_view();
    let mut j: usize = 0;
    assert(dates.deep_view().take(0) =~= Seq::<Seq<char>>::empty());
    assert(rows.deep_view() =~= before + concat_map(dates.deep_view().take(0), f));
    while j < dates.len()
        invariant
            0 <= j <= dates@.len(),
            dates == &tm.service_dates,
            f == date_rows_of(
                fi as nat,
                ts,
                id@,
                shape_id.deep_view(),
                trip_id@,
                start_time.deep_view(),
                tm.deep_view(),
            ),
            rows.deep_view() == before + concat_map(dates.deep_view().take(j as int), f),
        decreases dates@.len() - j,
    {
        proof {
            lemma_concat_map_take(dates.deep_view(), j as int, f);
        }
        push_date_rows(fi, ts, id, shape_id, trip_id, start_time, &dates[j], tm, rows);
        j += 1;
    }
    proof {
        lemma_concat_map_all(dates.deep_view(), f);
    }
}

fn push_trip_id_rows(
    fi: usize,
    ts: Option<u64>,
    id: &String,
    shape_id: &Option<String>,
    trip_id: &String,
    tm: &TripModifications,
    rows: &mut Vec<RTripModification>,
)
    ensures
        final(rows).deep_view() == old(rows).deep_view() + trip_id_rows(
            fi as nat,
            ts,
            id@,
            shape_id.deep_view(),
            trip_id@,
            tm.deep_view(),
        ),
{
    let copies = clone_strings(&tm.start_times);
    let ghost copies_view = copies@;
    let starts = ensure_nonempty(copies);
    proof {
        lemma_nonempty_view(copies_view, starts@);
    }
    let ghost f = start_rows_of(fi as nat, ts, id@, shape_id.deep_view(), trip_id@, tm.deep_view());
    let ghost before = rows.deep_view();
    let mut j: usize = 0;
    assert(starts.deep_view().take(0) =~= Seq::<Option<Seq<char>>>::empty());
    assert(rows.deep_view() =~= before + concat_map(starts.deep_view().take(0), f));
    while j < starts.len()
        invariant
            0 <= j <= starts@.len(),
            starts.deep_view() == or_none(tm.deep_view().start_times),
            f == start_rows_of(fi as nat, ts, id@, shape_id.deep_view(), trip_id@, tm.deep_view()),
            rows.deep_view() == before + concat_map(starts.deep_view().take(j as int), f),
        decreases starts@.len() - j,
    {
        proof {
            lemma_concat_map_take(starts.deep_view(), j as int, f);
        }
        push_start_rows(fi, ts, id, shape_id, trip_id, &starts[j], tm, rows);
        j += 1;
    }
    proof {
        lemma_concat_map_all(starts.deep_view(), f);
    }
}

fn push_selected_rows(
    fi: usize,
    ts: Option<u64>,
    id: &String,
    st: &SelectedTrips,
    tm: &TripModifications,
    rows: &mut Vec<RTripModification>,
)
    ensures
        final(rows).deep_view() == old(rows).deep_view() + selected_rows(
            fi as nat,
            ts,
            id@,
            st.deep_view(),
            tm.deep_view(),
        ),
{
    let trips = &st.trip_ids;
    let ghost f = trip_id_rows_of(fi as nat, ts, id@, st.shape_id.deep_view(), tm.deep_view());
    let ghost before = rows.deep_view();
    let mut j: usize = 0;
    assert(trips.deep_view().take(0) =~= Seq::<Seq<char>>::empty());
    assert(rows.deep_view() =~= before + concat_map(trips.deep_view().take(0), f));
    while j < trips.len()
        invariant
            0 <= j <= trips@.len(),
            trips == &st.trip_ids,
            f == trip_id_rows_of(fi as nat, ts, id@, st.shape_id.deep_view(), tm.deep_view()),
            rows.deep_view() == before + concat_map(trips.deep_view().take(j as int), f),
        decreases trips@.len() - j,
    {
        proof {
            lemma_concat_map_take(trips.deep_view(), j as int, f);
        }
        push_trip_id_rows(fi, ts, id, &st.shape_id, &trips[j], tm, rows);
        j += 1;
    }
    proof {
        lemma_concat_map_all(trips.deep_view(), f);
    }
}

fn push_trip_modifications_rows(
    fi: usize,
    ts: Option<u64>,
    id: &String,
    tm: &TripModifications,
    rows: &mut Vec<RTripModification>,
)
    ensures
        final(rows).deep_view() == old(rows).deep_view() + trip_modifications_rows(
            fi as nat,
            ts,
            id@,
            tm.deep_view(),
        ),
{
    let sel = &tm.selected_trips;
    let ghost f = selected_rows_of(fi as nat, ts, id@, tm.deep_view());
    let ghost before = rows.deep_view();
    let mut j: usize = 0;
    assert(sel.deep_view().take(0) =~= Seq::<SpecSelectedTrips>::empty());
    assert(rows.deep_view() =~= before + concat_map(sel.deep_view().take(0), f));
    while j < sel.len()
        invariant
            0 <= j <= sel@.len(),
            sel == &tm.selected_trips,
            f == selected_rows_of(fi as nat, ts, id@, tm.deep_view()),
            rows.deep_view() == before + concat_map(sel.deep_view().take(j as int), f),
        decreases sel@.len() - j,
    {
        proof {
            lemma_concat_map_take(sel.deep_view(), j as int, f);
        }
        push_selected_rows(fi, ts, id, &sel[j], tm, rows);
        j += 1;
    }
    proof {
        lemma_concat_map_all(sel.deep_view(), f);
    }
}

pub open spec fn no_trips_of(id: Seq<char>) -> spec_fn(SpecSelectedTrips) -> Seq<SpecTripModificationsWarning> {
    |st: SpecSelectedTrips|
        if st.trip_ids.len() == 0 {
            seq![SpecTripModificationsWarning::NoTrips { id, shape_id: st.shape_id }]
        } else {
            Seq::empty()
        }
}

/// The warnings for trip modifications `tm` sent with id `orig` and given id
/// `id`, when `used` had been handed out before: the replacement of a
/// duplicated id, that they were found, and each way in which they give no
/// row.
pub open spec fn tm_warnings(
    used: Seq<Seq<char>>,
    orig: Seq<char>,
    id: Seq<char>,
    tm: SpecTripModifications,
) -> Seq<SpecTripModificationsWarning> {
    (if used.contains(orig) {
        seq![SpecTripModificationsWarning::DuplicateId { id: orig, replacement: id }]
    } else {
        Seq::empty()
    }) + seq![SpecTripModificationsWarning::Found { id }] + (if tm.service_dates.len() == 0 {
        seq![SpecTripModificationsWarning::NoServiceDates { id }]
    } else {
        Seq::empty()
    }) + (if tm.modifications.len() == 0 {
        seq![SpecTripModificationsWarning::NoModifications { id }]
    } else {
        Seq::empty()
    }) + (if tm.selected_trips.len() == 0 {
        seq![SpecTripModificationsWarning::NoSelectedTrips { id }]
    } else {
        Seq::empty()
    }) + concat_map(tm.selected_trips, no_trips_of(id))
}

/// Reading the entities of file `fi` (header timestamp `ts`) in order: the
/// ids handed out, the rows and the warnings.
pub open spec fn tm_file(fi: nat, ts: Option<u64>, es: Seq<SpecFeedEntity>) -> (
    Seq<Seq<char>>,
    Seq<SpecRTripModification>,
    Seq<SpecTripModificationsWarning>,
)
    decreases es.len(),
{
    if es.len() == 0 {
        (Seq::empty(), Seq::empty(), Seq::empty())
    } else {
        let prev = tm_file(fi, ts, es.drop_last());
        let e = es.last();
        match e.trip_modifications {
            None => prev,
            Some(tm) => {
                let id = next_id(prev.0, e.id);
                (
                    prev.0.push(id),
                    prev.1 + trip_modifications_rows(fi, ts, id, tm),
                    prev.2 + tm_warnings(prev.0, e.id, id, tm),
                )
            },
        }
    }
}

/// The rows and warnings of the feeds, file after file.
pub open spec fn tm_feeds(feeds: Seq<SpecFeedMessage>) -> (
    Seq<SpecRTripModification>,
    Seq<SpecTripModificationsWarning>,
)
    decreases feeds.len(),
{
    if feeds.len() == 0 {
        (Seq::empty(), Seq::empty())
    } else {
        let prev = tm_feeds(feeds.drop_last());
        let f = tm_file(
            (feeds.len() - 1) as nat,
            feeds.last().header.timestamp,
            feeds.last().entity,
        );
        (prev.0 + f.1, prev.1 + f.2)
    }
}

/// Within one file, trip modifications are read under ids that are all
/// different: a repeated id is replaced by one not handed out before.
pub proof fn lemma_tm_ids_distinct(fi: nat, ts: Option<u64>, es: Seq<SpecFeedEntity>)
    ensures
        tm_file(fi, ts, es).0.no_duplicates(),
    decreases es.len(),
{
    if es.len() > 0 {
        lemma_tm_ids_distinct(fi, ts, es.drop_last());
        let prev = tm_file(fi, ts, es.drop_last()).0;
        let e = es.last();
        if e.trip_modifications is Some {
            let id = next_id(prev, e.id);
            lemma_next_id_fresh(prev, e.id);
            let ids = prev.push(id);
            assert forall|a: int, b: int| 0 <= a < ids.len() && 0 <= b < ids.len() && a != b implies ids[a]
                != ids[b] by {
                if a == prev.len() {
                    assert(prev[b] == ids[b]);
                    assert(prev.contains(prev[b]));
                } else if b == prev.len() {
                    assert(prev[a] == ids[a]);
                    assert(prev.contains(prev[a]));
                } else {
                    assert(prev[a] == ids[a] && prev[b] == ids[b]);
                }
            }
        }
    }
}

pub proof fn lemma_tm_file_len(fi: nat, ts: Option<u64>, es: Seq<SpecFeedEntity>)
    ensures
        tm_file(fi, ts, es).0.len() <= es.len(),
    decreases es.len(),
{
    if es.len() > 0 {
        lemma_tm_file_len(fi, ts, es.drop_last());
    }
}

fn push_warnings(
    dup: bool,
    orig: &String,
    id: &String,
    tm: &TripModifications,
    warnings: &mut Vec<TripModificationsWarning>,
)
    ensures
        final(warnings).deep_view() == old(warnings).deep_view() + (if dup {
            seq![SpecTripModificationsWarning::DuplicateId { id: orig@, replacement: id@ }]
        } else {
            Seq::empty()
        }) + seq![SpecTripModificationsWarning::Found { id: id@ }] + (if tm.deep_view().service_dates.len() == 0 {
            seq![SpecTripModificationsWarning::NoServiceDates { id: id@ }]
        } else {
            Seq::empty()
        }) + (if tm.deep_view().modifications.len() == 0 {
            seq![SpecTripModificationsWarning::NoModifications { id: id@ }]
        } else {
            Seq::empty()
        }) + (if tm.deep_view().selected_trips.len() == 0 {
            seq![SpecTripModificationsWarning::NoSelectedTrips { id: id@ }]
        } else {
            Seq::empty()
        }) + concat_map(tm.deep_view().selected_trips, no_trips_of(id@)),
{
    let ghost w0 = warnings.deep_view();
    if dup {
        warnings.push(TripModificationsWarning::DuplicateId { id: orig.clone(), replacement: id.clone() });
    }
    let ghost w1 = warnings.deep_view();
    assert(w1 =~= w0 + (if dup {
        seq![SpecTripModificationsWarning::DuplicateId { id: orig@, replacement: id@ }]
    } else {
        Seq::empty()
    }));
    warnings.push(TripModificationsWarning::Found { id: id.clone() });
    let ghost w2 = warnings.deep_view();
    assert(w2 =~= w1 + seq![SpecTripModificationsWarning::Found { id: id@ }]);
    if tm.service_dates.len() == 0 {
        warnings.push(TripModificationsWarning::NoServiceDates { id: id.clone() });
    }
    let ghost w3 = warnings.deep_view();
    assert(w3 =~= w2 + (if tm.deep_view().service_dates.len() == 0 {
        seq![SpecTripModificationsWarning::NoServiceDates { id: id@ }]
    } else {
        Seq::empty()
    }));
    if tm.modifications.len() == 0 {
        warnings.push(TripModificationsWarning::NoModifications { id: id.clone() });
    }
    let ghost w4 = warnings.deep_view();
    assert(w4 =~= w3 + (if tm.deep_view().modifications.len() == 0 {
        seq![SpecTripModificationsWarning::NoModifications { id: id@ }]
    } else {
        Seq::empty()
    }));
    if tm.selected_trips.len() == 0 {
        warnings.push(TripModificationsWarning::NoSelectedTrips { id: id.clone() });
    }
    let ghost w5 = warnings.deep_view();
    assert(w5 =~= w4 + (if tm.deep_view().selected_trips.len() == 0 {
        seq![SpecTripModificationsWarning::NoSelectedTrips { id: id@ }]
    } else {
        Seq::empty()
    }));
    let sel = &tm.selected_trips;
    let ghost f = no_trips_of(id@);
    let mut j: usize = 0;
    assert(sel.deep_view().take(0) =~= Seq::<SpecSelectedTrips>::empty());
    assert(warnings.deep_view() =~= w5 + concat_map(sel.deep_view().take(0), f));
    while j < sel.len()
        invariant
            0 <= j <= sel@.len(),
            sel == &tm.selected_trips,
            f == no_trips_of(id@),
            warnings.deep_view() == w5 + concat_map(sel.deep_view().take(j as int), f),
        decreases sel@.len() - j,
    {
        proof {
            lemma_concat_map_take(sel.deep_view(), j as int, f);
        }
        let ghost prev = warnings.deep_view();
        if sel[j].trip_ids.len() == 0 {
            let w = TripModificationsWarning::NoTrips { id: id.clone(), shape_id: clone_opt(&sel[j].shape_id) };
            let ghost wv = w.deep_view();
            warnings.push(w);
            assert(warnings.deep_view() =~= prev.push(wv));
            assert(f(sel.deep_view()[j as int]) =~= seq![wv]);
        } else {
            assert(f(sel.deep_view()[j as int]) =~= Seq::<SpecTripModificationsWarning>::empty());
        }
        assert(warnings.deep_view() =~= w5 + concat_map(sel.deep_view().take(j + 1), f));
        j += 1;
    }
    proof {
        lemma_concat_map_all(sel.deep_view(), f);
    }
}

/// The trip modifications of the feeds (the files of one archive, or one
/// file), as rows, with what the reader should be warned of. Ids are made
/// unique within each file.
pub fn read_gtfsrt_trip_modifications_internal(feeds: &Vec<FeedMessage>) -> (res: (
    Vec<RTripModification>,
    Vec<TripModificationsWarning>,
))
    ensures
        res.0.deep_view() == tm_feeds(feeds.deep_view()).0,
        res.1.deep_view() == tm_feeds(feeds.deep_view()).1,
{
    let mut rows: Vec<RTripModification> = Vec::new();
    let mut warnings: Vec<TripModificationsWarning> = Vec::new();
    let mut i: usize = 0;
    while i < feeds.len()
        invariant
            0 <= i <= feeds@.len(),
            rows.deep_view() == tm_feeds(feeds.deep_view().take(i as int)).0,
            warnings.deep_view() == tm_feeds(feeds.deep_view().take(i as int)).1,
        decreases feeds@.len() - i,
    {
        let msg = &feeds[i];
        let es = &msg.entity;
        let ts = msg.header.timestamp;
        // ids are expected to be unique only within a file
        let mut id_deduplicator = IdDeduplicator::new();
        let ghost rows0 = rows.deep_view();
        let ghost warnings0 = warnings.deep_view();
        let mut j: usize = 0;
        assert(es.deep_view().take(0) =~= Seq::<SpecFeedEntity>::empty());
        while j < es.len()
            invariant
                0 <= j <= es@.len(),
                es == &msg.entity,
                ts == msg.header.timestamp,
                id_deduplicator@ == tm_file(i as nat, ts, es.deep_view().take(j as int)).0,
                rows.deep_view() == rows0 + tm_file(i as nat, ts, es.deep_view().take(j as int)).1,
                warnings.deep_view() == warnings0 + tm_file(
                    i as nat,
                    ts,
                    es.deep_view().take(j as int),
                ).2,
            decreases es@.len() - j,
        {
            let ghost esv = es.deep_view();
            assert(esv.take(j + 1).drop_last() =~= esv.take(j as int));
            assert(esv.take(j + 1).last() == esv[j as int]);
            proof {
                lemma_tm_file_len(i as nat, ts, esv.take(j as int));
            }
            let entity = &es[j];
            match &entity.trip_modifications {
                None => {},
                Some(tm) => {
                    let ghost used = id_deduplicator@;
                    let id = id_deduplicator.deduplicate_id(entity.id.clone());
                    let dup = !(id == entity.id);
                    proof {
                        if used.contains(entity.id@) {
                            let k = choose|k: nat| crate::dedup::is_first_free(used, entity.id@, k);
                            assert(id@ == duplicate_candidate(entity.id@, k));
                            assert(id@.len() > entity.id@.len()) by {
                                reveal_strlit("_duplicated_");
                                crate::text::lemma_decimal_len(k);
                            }
                        }
                    }
                    let ghost before_rows = rows.deep_view();
                    push_trip_modifications_rows(i, ts, &id, tm, &mut rows);
                    push_warnings(dup, &entity.id, &id, tm, &mut warnings);
                    assert(rows.deep_view() =~= rows0 + tm_file(i as nat, ts, esv.take(j + 1)).1);
                    assert(warnings.deep_view() =~= warnings0 + tm_file(i as nat, ts, esv.take(j + 1)).2);
                },
            }
            j += 1;
        }
        proof {
            let fs = feeds.deep_view();
            assert(es.deep_view().take(es@.len() as int) =~= es.deep_view());
            assert(fs.take(i + 1).drop_last() =~= fs.take(i as int));
            assert(fs.take(i + 1).last() == fs[i as int]);
        }
        i += 1;
    }
    assert(feeds.deep_view().take(feeds@.len() as int) =~= feeds.deep_view());
    (rows, warnings)
}

/// The stop sequence a stop selector names, if any.
pub open spec fn selector_sequence(s: Option<SpecStopSelector>) -> Option<u32> {
    match s {
        Some(x) => x.stop_sequence,
        None => None,
    }
}

/// The stop id a stop selector names, if any.
pub open spec fn selector_stop_id(s: Option<SpecStopSelector>) -> Option<Seq<char>> {
    match s {
        Some(x) => x.stop_id,
        None => None,
    }
}

/// Row `r` tells of modification `m`: its first stop is the one `m` starts
/// at, its last the one `m` ends at, it carries `m`'s delay, alert and time,
/// and its replacement is one of `m`'s replacement stops (or none, where `m`
/// has none).
pub open spec fn row_of_modification(r: SpecRTripModification, m: SpecModification) -> bool {
    &&& r.start_stop_sequence == selector_sequence(m.start_stop_selector)
    &&& r.start_stop_id == selector_stop_id(m.start_stop_selector)
    &&& r.end_stop_sequence == selector_sequence(m.end_stop_selector)
    &&& r.end_stop_id == selector_stop_id(m.end_stop_selector)
    &&& r.propagated_modification_delay == m.propagated_modification_delay
    &&& r.service_alert_id == m.service_alert_id
    &&& r.last_modified_time == m.last_modified_time
    &&& if m.replacement_stops.len() == 0 {
        r.replacement_stop_id is None && r.replacement_travel_time_to_stop is None
    } else {
        exists|q: int|
            0 <= q < m.replacement_stops.len() && r.replacement_stop_id == (
            #[trigger] m.replacement_stops[q]).stop_id && r.replacement_travel_time_to_stop
                == m.replacement_stops[q].travel_time_to_stop
    }
}

/// Row `r` tells of a trip that selection `st` selects, with its shape.
pub open spec fn row_of_selection(r: SpecRTripModification, st: SpecSelectedTrips) -> bool {
    st.trip_ids.contains(r.trip_id) && r.shape_id == st.shape_id
}

/// What every row of trip modifications `tm` (id `id`, file `fi`, header
/// timestamp `ts`) satisfies.
pub open spec fn tm_row_ok(fi: nat, ts: Option<u64>, id: Seq<char>, tm: SpecTripModifications) -> spec_fn(
    SpecRTripModification,
) -> bool {
    |r: SpecRTripModification|
        {
            &&& r.id == id
            &&& r.file_index == fi
            &&& r.file_timestamp == ts
            &&& tm.service_dates.contains(r.service_date)
            &&& or_none(tm.start_times).contains(r.start_time)
            &&& exists|s: int|
                0 <= s < tm.selected_trips.len() && row_of_selection(r, #[trigger] tm.selected_trips[s])
            &&& exists|k: int|
                0 <= k < tm.modifications.len() && row_of_modification(r, #[trigger] tm.modifications[k])
        }
}

proof fn lemma_replacement_rows_ok(
    fi: nat,
    ts: Option<u64>,
    id: Seq<char>,
    tm: SpecTripModifications,
    s: int,
    trip_id: Seq<char>,
    start_time: Option<Seq<char>>,
    service_date: Seq<char>,
    k: int,
)
    requires
        0 <= s < tm.selected_trips.len(),
        tm.selected_trips[s].trip_ids.contains(trip_id),
        or_none(tm.start_times).contains(start_time),
        tm.service_dates.contains(service_date),
        0 <= k < tm.modifications.len(),
    ensures
        forall|j: int|
            0 <= j < replacement_rows(
                fi,
                ts,
                id,
                tm.selected_trips[s].shape_id,
                trip_id,
                start_time,
                service_date,
                tm.modifications[k],
            ).len() ==> #[trigger] tm_row_ok(fi, ts, id, tm)(
                replacement_rows(
                    fi,
                    ts,
                    id,
                    tm.selected_trips[s].shape_id,
                    trip_id,
                    start_time,
                    service_date,
                    tm.modifications[k],
                )[j],
            ),
{
    let m = tm.modifications[k];
    let shape_id = tm.selected_trips[s].shape_id;
    let rows = replacement_rows(fi, ts, id, shape_id, trip_id, start_time, service_date, m);
    assert forall|j: int| 0 <= j < rows.len() implies #[trigger] tm_row_ok(fi, ts, id, tm)(rows[j]) by {
        let r = rows[j];
        assert(row_of_selection(r, tm.selected_trips[s]));
        if m.replacement_stops.len() > 0 {
            assert(r.replacement_stop_id == m.replacement_stops[j].stop_id);
        }
        assert(row_of_modification(r, tm.modifications[k]));
    }
}

proof fn lemma_date_rows_ok(
    fi: nat,
    ts: Option<u64>,
    id: Seq<char>,
    tm: SpecTripModifications,
    s: int,
    trip_id: Seq<char>,
    start_time: Option<Seq<char>>,
    service_date: Seq<char>,
)
    requires
        0 <= s < tm.selected_trips.len(),
        tm.selected_trips[s].trip_ids.contains(trip_id),
        or_none(tm.start_times).contains(start_time),
        tm.service_dates.contains(service_date),
    ensures
        forall|j: int|
            0 <= j < date_rows(fi, ts, id, tm.selected_trips[s].shape_id, trip_id, start_time, service_date, tm).len()
                ==> #[trigger] tm_row_ok(fi, ts, id, tm)(
                date_rows(fi, ts, id, tm.selected_trips[s].shape_id, trip_id, start_time, service_date, tm)[j],
            ),
{
    let f = replacement_rows_of(fi, ts, id, tm.selected_trips[s].shape_id, trip_id, start_time, service_date);
    let p = tm_row_ok(fi, ts, id, tm);
    assert forall|i: int, j: int| 0 <= i < tm.modifications.len() && 0 <= j < f(tm.modifications[i]).len() implies #[trigger] p(
        f(tm.modifications[i])[j],
    ) by {
        lemma_replacement_rows_ok(fi, ts, id, tm, s, trip_id, start_time, service_date, i);
    }
    lemma_concat_map_all_satisfy(tm.modifications, f, p);
}

proof fn lemma_start_rows_ok(
    fi: nat,
    ts: Option<u64>,
    id: Seq<char>,
    tm: SpecTripModifications,
    s: int,
    trip_id: Seq<char>,
    start_time: Option<Seq<char>>,
)
    requires
        0 <= s < tm.selected_trips.len(),
        tm.selected_trips[s].trip_ids.contains(trip_id),
        or_none(tm.start_times).contains(start_time),
    ensures
        forall|j: int|
            0 <= j < start_rows(fi, ts, id, tm.selected_trips[s].shape_id, trip_id, start_time, tm).len()
                ==> #[trigger] tm_row_ok(fi, ts, id, tm)(
                start_rows(fi, ts, id, tm.selected_trips[s].shape_id, trip_id, start_time, tm)[j],
            ),
{
    let f = date_rows_of(fi, ts, id, tm.selected_trips[s].shape_id, trip_id, start_time, tm);
    let p = tm_row_ok(fi, ts, id, tm);
    assert forall|i: int, j: int| 0 <= i < tm.service_dates.len() && 0 <= j < f(tm.service_dates[i]).len() implies #[trigger] p(
        f(tm.service_dates[i])[j],
    ) by {
        assert(tm.service_dates.contains(tm.service_dates[i]));
        lemma_date_rows_ok(fi, ts, id, tm, s, trip_id, start_time, tm.service_dates[i]);
    }
    lemma_concat_map_all_satisfy(tm.service_dates, f, p);
}

proof fn lemma_trip_id_rows_ok(fi: nat, ts: Option<u64>, id: Seq<char>, tm: SpecTripModifications, s: int, trip_id: Seq<char>)
    requires
        0 <= s < tm.selected_trips.len(),
        tm.selected_trips[s].trip_ids.contains(trip_id),
    ensures
        forall|j: int|
            0 <= j < trip_id_rows(fi, ts, id, tm.selected_trips[s].shape_id, trip_id, tm).len()
                ==> #[trigger] tm_row_ok(fi, ts, id, tm)(
                trip_id_rows(fi, ts, id, tm.selected_trips[s].shape_id, trip_id, tm)[j],
            ),
{
    let xs = or_none(tm.start_times);
    let f = start_rows_of(fi, ts, id, tm.selected_trips[s].shape_id, trip_id, tm);
    let p = tm_row_ok(fi, ts, id, tm);
    assert forall|i: int, j: int| 0 <= i < xs.len() && 0 <= j < f(xs[i]).len() implies #[trigger] p(f(xs[i])[j]) by {
        assert(xs.contains(xs[i]));
        lemma_start_rows_ok(fi, ts, id, tm, s, trip_id, xs[i]);
    }
    lemma_concat_map_all_satisfy(xs, f, p);
}

proof fn lemma_selected_rows_ok(fi: nat, ts: Option<u64>, id: Seq<char>, tm: SpecTripModifications, s: int)
    requires
        0 <= s < tm.selected_trips.len(),
    ensures
        forall|j: int|
            0 <= j < selected_rows(fi, ts, id, tm.selected_trips[s], tm).len() ==> #[trigger] tm_row_ok(fi, ts, id, tm)(
                selected_rows(fi, ts, id, tm.selected_trips[s], tm)[j],
            ),
{
    let st = tm.selected_trips[s];
    let f = trip_id_rows_of(fi, ts, id, st.shape_id, tm);
    let p = tm_row_ok(fi, ts, id, tm);
    assert forall|i: int, j: int| 0 <= i < st.trip_ids.len() && 0 <= j < f(st.trip_ids[i]).len() implies #[trigger] p(
        f(st.trip_ids[i])[j],
    ) by {
        assert(st.trip_ids.contains(st.trip_ids[i]));
        lemma_trip_id_rows_ok(fi, ts, id, tm, s, st.trip_ids[i]);
    }
    lemma_concat_map_all_satisfy(st.trip_ids, f, p);
}

/// Every row of trip modifications tells of one of its modifications (its
/// first and last stops those the modification starts and ends at, its
/// replacement one of the modification's replacement stops), of a trip one
/// of its selections selects (with that selection's shape), of one of its
/// service dates and of one of its start times (or none, where it has
/// none), and carries the entity's id, the file's number and the file's
/// timestamp.
pub proof fn lemma_trip_modifications_rows_ok(fi: nat, ts: Option<u64>, id: Seq<char>, tm: SpecTripModifications)
    ensures
        forall|j: int|
            #![trigger trip_modifications_rows(fi, ts, id, tm)[j]]
            0 <= j < trip_modifications_rows(fi, ts, id, tm).len() ==> {
                let r = trip_modifications_rows(fi, ts, id, tm)[j];
                &&& r.id == id
                &&& r.file_index == fi
                &&& r.file_timestamp == ts
                &&& tm.service_dates.contains(r.service_date)
                &&& or_none(tm.start_times).contains(r.start_time)
                &&& exists|s: int|
                    0 <= s < tm.selected_trips.len() && row_of_selection(r, #[trigger] tm.selected_trips[s])
                &&& exists|k: int|
                    0 <= k < tm.modifications.len() && row_of_modification(r, #[trigger] tm.modifications[k])
            },
{
    let f = selected_rows_of(fi, ts, id, tm);
    let p = tm_row_ok(fi, ts, id, tm);
    assert forall|i: int, j: int| 0 <= i < tm.selected_trips.len() && 0 <= j < f(tm.selected_trips[i]).len() implies #[trigger] p(
        f(tm.selected_trips[i])[j],
    ) by {
        lemma_selected_rows_ok(fi, ts, id, tm, i);
    }
    lemma_concat_map_all_satisfy(tm.selected_trips, f, p);
    let rows = trip_modifications_rows(fi, ts, id, tm);
    assert forall|j: int| 0 <= j < rows.len() implies {
        let r = #[trigger] rows[j];
        &&& r.id == id
        &&& r.file_index == fi
        &&& r.file_timestamp == ts
        &&& tm.service_dates.contains(r.service_date)
        &&& or_none(tm.start_times).contains(r.start_time)
        &&& exists|s: int|
            0 <= s < tm.selected_trips.len() && row_of_selection(r, #[trigger] tm.selected_trips[s])
        &&& exists|k: int|
            0 <= k < tm.modifications.len() && row_of_modification(r, #[trigger] tm.modifications[k])
    } by {
        assert(p(rows[j]));
    }
}

} // verus!
