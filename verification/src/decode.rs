//! Decoding GTFS-realtime messages: each message is split into its fields,
//! and the fields are applied in order to a value that starts out empty. A
//! scalar or string field that comes twice keeps its last value; a message
//! field that comes twice is merged; repeated fields collect every value.

use crate::model::{
    FeedMessage, SpecFeedMessage, feed_message_default, FeedHeader, SpecFeedHeader, feed_header_default, FeedEntity, SpecFeedEntity, feed_entity_default, TripUpdate, SpecTripUpdate, trip_update_default, StopTimeEvent, SpecStopTimeEvent, stop_time_event_default, StopTimeUpdate, SpecStopTimeUpdate, stop_time_update_default, VehiclePosition, SpecVehiclePosition, vehicle_position_default, Position, SpecPosition, position_default, TripDescriptor, SpecTripDescriptor, trip_descriptor_default, ModifiedTripSelector, SpecModifiedTripSelector, modified_trip_selector_default, VehicleDescriptor, SpecVehicleDescriptor, vehicle_descriptor_default, Alert, SpecAlert, alert_default, TimeRange, SpecTimeRange, time_range_default, EntitySelector, SpecEntitySelector, entity_selector_default, TranslatedString, SpecTranslatedString, translated_string_default, Translation, SpecTranslation, translation_default, TripModifications, SpecTripModifications, trip_modifications_default, SelectedTrips, SpecSelectedTrips, selected_trips_default, Modification, SpecModification, modification_default, StopSelector, SpecStopSelector, stop_selector_default, ReplacementStop, SpecReplacementStop, replacement_stop_default,
};
use crate::raw::{merge_raw, raw_merged, RawKind, RawMessage};
use crate::values::{
    as_fixed32, as_fixed64, as_range, as_string, as_varint, fold_fields, get_fixed32, get_fixed64,
    get_range, get_string, get_varint, lemma_fold_step, value_in,
};
use crate::wire::{
    fields_within, lemma_fields_within, spec_fields, split_fields, ErrorKind, Field, ParseError,
};
use vstd::prelude::*;

verus! {

/// The effect of one field on a `FeedMessage`; fields the schema does not know
/// are left aside.
#[verifier::opaque]
pub open spec fn feed_message_applied(data: Seq<u8>, f: Field, m: SpecFeedMessage, ctx: nat) -> Result<
    SpecFeedMessage,
    ErrorKind,
> {
    if f.tag == 1 {
        match as_range(f.value) {
            Err(x) => Err(x),
            Ok((s, e)) => match feed_header_merged(data, s, e, ctx, m.header) {
                Ok(n) => Ok(SpecFeedMessage { header: n, ..m }),
                Err(x) => Err(x),
            },
        }
    } else if f.tag == 2 {
        match as_range(f.value) {
            Err(x) => Err(x),
            Ok((s, e)) => match feed_entity_merged(data, s, e, ctx, feed_entity_default()) {
                Ok(n) => Ok(SpecFeedMessage { entity: m.entity.push(n), ..m }),
                Err(x) => Err(x),
            },
        }
    } else {
        Ok(m)
    }
}

pub open spec fn feed_message_step(data: Seq<u8>, ctx: nat) -> spec_fn(SpecFeedMessage, Field) -> Result<
    SpecFeedMessage,
    ErrorKind,
> {
    |m: SpecFeedMessage, f: Field| feed_message_applied(data, f, m, ctx)
}

/// One occurrence of a `FeedMessage`, between `s` and `e`, merged into `init`:
/// the nesting budget must be above zero, and the fields are read with one
/// less.
pub open spec fn feed_message_merged(data: Seq<u8>, s: nat, e: nat, ctx: nat, init: SpecFeedMessage) -> Result<
    SpecFeedMessage,
    ErrorKind,
> {
    if ctx == 0 {
        Err(ErrorKind::RecursionLimitReached)
    } else {
        match spec_fields(data, s, e, (ctx - 1) as nat) {
            Err(x) => Err(x),
            Ok(fs) => fold_fields(fs, init, feed_message_step(data, (ctx - 1) as nat)),
        }
    }
}

fn apply_feed_message_field(data: &[u8], f: Field, m: &mut FeedMessage, ctx: u32) -> (res: Result<
    (),
    ParseError,
>)
    requires
        value_in(f.value, data@.len()),
    ensures
        match res {
            Ok(_) => feed_message_applied(data@, f, old(m).deep_view(), ctx as nat) == Ok::<
                SpecFeedMessage,
                ErrorKind,
            >(final(m).deep_view()),
            Err(x) => feed_message_applied(data@, f, old(m).deep_view(), ctx as nat) == Err::<
                SpecFeedMessage,
                ErrorKind,
            >(x.kind()),
        },
{
    reveal(feed_message_applied);
    if f.tag == 1 {
        let (s, e) = match get_range(f.value) {
            Ok(r) => r,
            Err(x) => {
                return Err(x);
            },
        };
        if let Err(x) = merge_feed_header(data, s, e, ctx, &mut m.header) {
            return Err(x);
        }
    } else if f.tag == 2 {
        let (s, e) = match get_range(f.value) {
            Ok(r) => r,
            Err(x) => {
                return Err(x);
            },
        };
        let mut sub = FeedEntity::new();
        if let Err(x) = merge_feed_entity(data, s, e, ctx, &mut sub) {
            return Err(x);
        }
        let ghost before = m.entity.deep_view();
        let ghost sv = sub.deep_view();
        m.entity.push(sub);
        assert(m.entity.deep_view() =~= before.push(sv));
    }
    Ok(())
}

/// Merges the `FeedMessage` between `s` and `e` into `m`.
pub fn merge_feed_message(data: &[u8], s: usize, e: usize, ctx: u32, m: &mut FeedMessage) -> (res: Result<
    (),
    ParseError,
>)
    requires
        s <= e <= data@.len(),
    ensures
        match res {
            Ok(_) => feed_message_merged(data@, s as nat, e as nat, ctx as nat, old(m).deep_view()) == Ok::<
                SpecFeedMessage,
                ErrorKind,
            >(final(m).deep_view()),
            Err(x) => feed_message_merged(data@, s as nat, e as nat, ctx as nat, old(m).deep_view()) == Err::<
                SpecFeedMessage,
                ErrorKind,
            >(x.kind()),
        },
{
    if ctx == 0 {
        return Err(ParseError::RecursionLimitReached);
    }
    let _len = data.len();
    let fs = match split_fields(data, s, e, ctx - 1) {
        Ok(fs) => fs,
        Err(x) => {
            return Err(x);
        },
    };
    proof {
        lemma_fields_within(data@, s as nat, e as nat, (ctx - 1) as nat);
        assert(fs@.skip(0) =~= fs@);
    }
    let ghost init = m.deep_view();
    let mut i: usize = 0;
    while i < fs.len()
        invariant
            0 <= i <= fs@.len(),
            s <= e <= data@.len(),
            ctx > 0,
            init == old(m).deep_view(),
            fields_within(fs@, s as nat, e as nat),
            spec_fields(data@, s as nat, e as nat, (ctx - 1) as nat) == Ok::<Seq<Field>, ErrorKind>(fs@),
            fold_fields(fs@, init, feed_message_step(data@, (ctx - 1) as nat)) == fold_fields(
                fs@.skip(i as int),
                m.deep_view(),
                feed_message_step(data@, (ctx - 1) as nat),
            ),
        decreases fs@.len() - i,
    {
        proof {
            lemma_fold_step(fs@, i as int, init, m.deep_view(), feed_message_step(data@, (ctx - 1) as nat));
        }
        if let Err(x) = apply_feed_message_field(data, fs[i], m, ctx - 1) {
            return Err(x);
        }
        i += 1;
    }
    proof {
        assert(fs@.skip(fs@.len() as int) =~= Seq::<Field>::empty());
    }
    Ok(())
}

/// The effect of one field on a `FeedHeader`; fields the schema does not know
/// are left aside.
#[verifier::opaque]
pub open spec fn feed_header_applied(data: Seq<u8>, f: Field, m: SpecFeedHeader, ctx: nat) -> Result<
    SpecFeedHeader,
    ErrorKind,
> {
    if f.tag == 1 {
        match as_string(data, f.value) {
            Ok(v) => Ok(SpecFeedHeader { gtfs_realtime_version: v, ..m }),
            Err(x) => Err(x),
        }
    } else if f.tag == 2 {
        match as_varint(f.value) {
            Ok(v) => Ok(SpecFeedHeader { incrementality: Some(v as i32), ..m }),
            Err(x) => Err(x),
        }
    } else if f.tag == 3 {
        match as_varint(f.value) {
            Ok(v) => Ok(SpecFeedHeader { timestamp: Some(v), ..m }),
            Err(x) => Err(x),
        }
    } else if f.tag == 4 {
        match as_string(data, f.value) {
            Ok(v) => Ok(SpecFeedHeader { feed_version: Some(v), ..m }),
            Err(x) => Err(x),
        }
    } else {
        Ok(m)
    }
}

pub open spec fn feed_header_step(data: Seq<u8>, ctx: nat) -> spec_fn(SpecFeedHeader, Field) -> Result<
    SpecFeedHeader,
    ErrorKind,
> {
    |m: SpecFeedHeader, f: Field| feed_header_applied(data, f, m, ctx)
}

/// One occurrence of a `FeedHeader`, between `s` and `e`, merged into `init`:
/// the nesting budget must be above zero, and the fields are read with one
/// less.
pub open spec fn feed_header_merged(data: Seq<u8>, s: nat, e: nat, ctx: nat, init: SpecFeedHeader) -> Result<
    SpecFeedHeader,
    ErrorKind,
> {
    if ctx == 0 {
        Err(ErrorKind::RecursionLimitReached)
    } else {
        match spec_fields(data, s, e, (ctx - 1) as nat) {
            Err(x) => Err(x),
            Ok(fs) => fold_fields(fs, init, feed_header_step(data, (ctx - 1) as nat)),
        }
    }
}

fn apply_feed_header_field(data: &[u8], f: Field, m: &mut FeedHeader, ctx: u32) -> (res: Result<
    (),
    ParseError,
>)
    requires
        value_in(f.value, data@.len()),
    ensures
        match res {
            Ok(_) => feed_header_applied(data@, f, old(m).deep_view(), ctx as nat) == Ok::<
                SpecFeedHeader,
                ErrorKind,
            >(final(m).deep_view()),
            Err(x) => feed_header_applied(data@, f, old(m).deep_view(), ctx as nat) == Err::<
                SpecFeedHeader,
                ErrorKind,
            >(x.kind()),
        },
{
    reveal(feed_header_applied);
    if f.tag == 1 {
        match get_string(data, f.value) {
            Ok(v) => {
                m.gtfs_realtime_version = v;
            },
            Err(x) => {
                return Err(x);
            },
        }
    } else if f.tag == 2 {
        match get_varint(f.value) {
            Ok(v) => {
                m.incrementality = Some(v as i32);
            },
            Err(x) => {
                return Err(x);
            },
        }
    } else if f.tag == 3 {
        match get_varint(f.value) {
            Ok(v) => {
                m.timestamp = Some(v);
            },
            Err(x) => {
                return Err(x);
            },
        }
    } else if f.tag == 4 {
        match get_string(data, f.value) {
            Ok(v) => {
                m.feed_version = Some(v);
            },
            Err(x) => {
                return Err(x);
            },
        }
    }
    Ok(())
}

/// Merges the `FeedHeader` between `s` and `e` into `m`.
pub fn merge_feed_header(data: &[u8], s: usize, e: usize, ctx: u32, m: &mut FeedHeader) -> (res: Result<
    (),
    ParseError,
>)
    requires
        s <= e <= data@.len(),
    ensures
        match res {
            Ok(_) => feed_header_merged(data@, s as nat, e as nat, ctx as nat, old(m).deep_view()) == Ok::<
                SpecFeedHeader,
                ErrorKind,
            >(final(m).deep_view()),
            Err(x) => feed_header_merged(data@, s as nat, e as nat, ctx as nat, old(m).deep_view()) == Err::<
                SpecFeedHeader,
                ErrorKind,
            >(x.kind()),
        },
{
    if ctx == 0 {
        return Err(ParseError::RecursionLimitReached);
    }
    let _len = data.len();
    let fs = match split_fields(data, s, e, ctx - 1) {
        Ok(fs) => fs,
        Err(x) => {
            return Err(x);
        },
    };
    proof {
        lemma_fields_within(data@, s as nat, e as nat, (ctx - 1) as nat);
        assert(fs@.skip(0) =~= fs@);
    }
    let ghost init = m.deep_view();
    let mut i: usize = 0;
    while i < fs.len()
        invariant
            0 <= i <= fs@.len(),
            s <= e <= data@.len(),
            ctx > 0,
            init == old(m).deep_view(),
            fields_within(fs@, s as nat, e as nat),
            spec_fields(data@, s as nat, e as nat, (ctx - 1) as nat) == Ok::<Seq<Field>, ErrorKind>(fs@),
            fold_fields(fs@, init, feed_header_step(data@, (ctx - 1) as nat)) == fold_fields(
                fs@.skip(i as int),
                m.deep_view(),
                feed_header_step(data@, (ctx - 1) as nat),
            ),
        decreases fs@.len() - i,
    {
        proof {
            lemma_fold_step(fs@, i as int, init, m.deep_view(), feed_header_step(data@, (ctx - 1) as nat));
        }
        if let Err(x) = apply_feed_header_field(data, fs[i], m, ctx - 1) {
            return Err(x);
        }
        i += 1;
    }
    proof {
        assert(fs@.skip(fs@.len() as int) =~= Seq::<Field>::empty());
    }
    Ok(())
}

/// The effect of one field on a `FeedEntity`; fields the schema does not know
/// are left aside.
#[verifier::opaque]
pub open spec fn feed_entity_applied(data: Seq<u8>, f: Field, m: SpecFeedEntity, ctx: nat) -> Result<
    SpecFeedEntity,
    ErrorKind,
> {
    if f.tag == 1 {
        match as_string(data, f.value) {
            Ok(v) => Ok(SpecFeedEntity { id: v, ..m }),
            Err(x) => Err(x),
        }
    } else if f.tag == 2 {
        match as_varint(f.value) {
            Ok(v) => Ok(SpecFeedEntity { is_deleted: Some(v != 0), ..m }),
            Err(x) => Err(x),
        }
    } else if f.tag == 3 {
        match as_range(f.value) {
            Err(x) => Err(x),
            Ok((s, e)) => match trip_update_merged(data, s, e, ctx, match m.trip_update {
                Some(n) => n,
                None => trip_update_default(),
            }) {
                Ok(n) => Ok(SpecFeedEntity { trip_update: Some(n), ..m }),
                Err(x) => Err(x),
            },
        }
    } else if f.tag == 4 {
        match as_range(f.value) {
            Err(x) => Err(x),
            Ok((s, e)) => match vehicle_position_merged(data, s, e, ctx, match m.vehicle {
                Some(n) => n,
                None => vehicle_position_default(),
            }) {
                Ok(n) => Ok(SpecFeedEntity { vehicle: Some(n), ..m }),
                Err(x) => Err(x),
            },
        }
    } else if f.tag == 5 {
        match as_range(f.value) {
            Err(x) => Err(x),
            Ok((s, e)) => match alert_merged(data, s, e, ctx, match m.alert {
                Some(n) => n,
                None => alert_default(),
            }) {
                Ok(n) => Ok(SpecFeedEntity { alert: Some(n), ..m }),
                Err(x) => Err(x),
            },
        }
    } else if f.tag == 6 {
        match as_range(f.value) {
            Err(x) => Err(x),
            Ok((s, e)) => match raw_merged(data, RawKind::Shape, s, e, ctx, match m.shape {
                Some(n) => n,
                None => Seq::empty(),
            }) {
                Ok(n) => Ok(SpecFeedEntity { shape: Some(n), ..m }),
                Err(x) => Err(x),
            },
        }
    } else if f.tag == 7 {
        match as_range(f.value) {
            Err(x) => Err(x),
            Ok((s, e)) => match raw_merged(data, RawKind::Stop, s, e, ctx, match m.stop {
                Some(n) => n,
                None => Seq::empty(),
            }) {
                Ok(n) => Ok(SpecFeedEntity { stop: Some(n), ..m }),
                Err(x) => Err(x),
            },
        }
    } else if f.tag == 8 {
        match as_range(f.value) {
            Err(x) => Err(x),
            Ok((s, e)) => match trip_modifications_merged(data, s, e, ctx, match m.trip_modifications {
                Some(n) => n,
                None => trip_modifications_default(),
            }) {
                Ok(n) => Ok(SpecFeedEntity { trip_modifications: Some(n), ..m }),
                Err(x) => Err(x),
            },
        }
    } else {
        Ok(m)
    }
}

pub open spec fn feed_entity_step(data: Seq<u8>, ctx: nat) -> spec_fn(SpecFeedEntity, Field) -> Result<
    SpecFeedEntity,
    ErrorKind,
> {
    |m: SpecFeedEntity, f: Field| feed_entity_applied(data, f, m, ctx)
}

/// One occurrence of a `FeedEntity`, between `s` and `e`, merged into `init`:
/// the nesting budget must be above zero, and the fields are read with one
/// less.
pub open spec fn feed_entity_merged(data: Seq<u8>, s: nat, e: nat, ctx: nat, init: SpecFeedEntity) -> Result<
    SpecFeedEntity,
    ErrorKind,
> {
    if ctx == 0 {
        Err(ErrorKind::RecursionLimitReached)
    } else {
        match spec_fields(data, s, e, (ctx - 1) as nat) {
            Err(x) => Err(x),
            Ok(fs) => fold_fields(fs, init, feed_entity_step(data, (ctx - 1) as nat)),
        }
    }
}

fn apply_feed_entity_field(data: &[u8], f: Field, m: &mut FeedEntity, ctx: u32) -> (res: Result<
    (),
    ParseError,
>)
    requires
        value_in(f.value, data@.len()),
    ensures
        match res {
            Ok(_) => feed_entity_applied(data@, f, old(m).deep_view(), ctx as nat) == Ok::<
                SpecFeedEntity,
                ErrorKind,
            >(final(m).deep_view()),
            Err(x) => feed_entity_applied(data@, f, old(m).deep_view(), ctx as nat) == Err::<
                SpecFeedEntity,
                ErrorKind,
            >(x.kind()),
        },
{
    reveal(feed_entity_applied);
    if f.tag == 1 {
        match get_string(data, f.value) {
            Ok(v) => {
                m.id = v;
            },
            Err(x) => {
                return Err(x);
            },
        }
    } else if f.tag == 2 {
        match get_varint(f.value) {
            Ok(v) => {
                m.is_deleted = Some(v != 0);
            },
            Err(x) => {
                return Err(x);
            },
        }
    } else if f.tag == 3 {
        let (s, e) = match get_range(f.value) {
            Ok(r) => r,
            Err(x) => {
                return Err(x);
            },
        };
        let mut sub = match m.trip_update.take() {
            Some(n) => n,
            None => TripUpdate::new(),
        };
        if let Err(x) = merge_trip_update(data, s, e, ctx, &mut sub) {
            return Err(x);
        }
        m.trip_update = Some(sub);
    } else if f.tag == 4 {
        let (s, e) = match get_range(f.value) {
            Ok(r) => r,
            Err(x) => {
                return Err(x);
            },
        };
        let mut sub = match m.vehicle.take() {
            Some(n) => n,
            None => VehiclePosition::new(),
        };
        if let Err(x) = merge_vehicle_position(data, s, e, ctx, &mut sub) {
            return Err(x);
        }
        m.vehicle = Some(sub);
    } else if f.tag == 5 {
        let (s, e) = match get_range(f.value) {
            Ok(r) => r,
            Err(x) => {
                return Err(x);
            },
        };
        let mut sub = match m.alert.take() {
            Some(n) => n,
            None => Alert::new(),
        };
        if let Err(x) = merge_alert(data, s, e, ctx, &mut sub) {
            return Err(x);
        }
        m.alert = Some(sub);
    } else if f.tag == 6 {
        let (s, e) = match get_range(f.value) {
            Ok(r) => r,
            Err(x) => {
                return Err(x);
            },
        };
        let mut sub = match m.shape.take() {
            Some(n) => n,
            None => RawMessage::new(),
        };
        if let Err(x) = merge_raw(data, RawKind::Shape, s, e, ctx, &mut sub) {
            return Err(x);
        }
        m.shape = Some(sub);
    } else if f.tag == 7 {
        let (s, e) = match get_range(f.value) {
            Ok(r) => r,
            Err(x) => {
                return Err(x);
            },
        };
        let mut sub = match m.stop.take() {
            Some(n) => n,
            None => RawMessage::new(),
        };
        if let Err(x) = merge_raw(data, RawKind::Stop, s, e, ctx, &mut sub) {
            return Err(x);
        }
        m.stop = Some(sub);
    } else if f.tag == 8 {
        let (s, e) = match get_range(f.value) {
            Ok(r) => r,
            Err(x) => {
                return Err(x);
            },
        };
        let mut sub = match m.trip_modifications.take() {
            Some(n) => n,
            None => TripModifications::new(),
        };
        if let Err(x) = merge_trip_modifications(data, s, e, ctx, &mut sub) {
            return Err(x);
        }
        m.trip_modifications = Some(sub);
    }
    Ok(())
}

/// Merges the `FeedEntity` between `s` and `e` into `m`.
pub fn merge_feed_entity(data: &[u8], s: usize, e: usize, ctx: u32, m: &mut FeedEntity) -> (res: Result<
    (),
    ParseError,
>)
    requires
        s <= e <= data@.len(),
    ensures
        match res {
            Ok(_) => feed_entity_merged(data@, s as nat, e as nat, ctx as nat, old(m).deep_view()) == Ok::<
                SpecFeedEntity,
                ErrorKind,
            >(final(m).deep_view()),
            Err(x) => feed_entity_merged(data@, s as nat, e as nat, ctx as nat, old(m).deep_view()) == Err::<
                SpecFeedEntity,
                ErrorKind,
            >(x.kind()),
        },
{
    if ctx == 0 {
        return Err(ParseError::RecursionLimitReached);
    }
    let _len = data.len();
    let fs = match split_fields(data, s, e, ctx - 1) {
        Ok(fs) => fs,
        Err(x) => {
            return Err(x);
        },
    };
    proof {
        lemma_fields_within(data@, s as nat, e as nat, (ctx - 1) as nat);
        assert(fs@.skip(0) =~= fs@);
    }
    let ghost init = m.deep_view();
    let mut i: usize = 0;
    while i < fs.len()
        invariant
            0 <= i <= fs@.len(),
            s <= e <= data@.len(),
            ctx > 0,
            init == old(m).deep_view(),
            fields_within(fs@, s as nat, e as nat),
            spec_fields(data@, s as nat, e as nat, (ctx - 1) as nat) == Ok::<Seq<Field>, ErrorKind>(fs@),
            fold_fields(fs@, init, feed_entity_step(data@, (ctx - 1) as nat)) == fold_fields(
                fs@.skip(i as int),
                m.deep_view(),
                feed_entity_step(data@, (ctx - 1) as nat),
            ),
        decreases fs@.len() - i,
    {
        proof {
            lemma_fold_step(fs@, i as int, init, m.deep_view(), feed_entity_step(data@, (ctx - 1) as nat));
        }
        if let Err(x) = apply_feed_entity_field(data, fs[i], m, ctx - 1) {
            return Err(x);
        }
        i += 1;
    }
    proof {
        assert(fs@.skip(fs@.len() as int) =~= Seq::<Field>::empty());
    }
    Ok(())
}

/// The effect of one field on a `TripUpdate`; fields the schema does not know
/// are left aside.
#[verifier::opaque]
pub open spec fn trip_update_applied(data: Seq<u8>, f: Field, m: SpecTripUpdate, ctx: nat) -> Result<
    SpecTripUpdate,
    ErrorKind,
> {
    if f.tag == 1 {
        match as_range(f.value) {
            Err(x) => Err(x),
            Ok((s, e)) => match trip_descriptor_merged(data, s, e, ctx, m.trip) {
                Ok(n) => Ok(SpecTripUpdate { trip: n, ..m }),
                Err(x) => Err(x),
            },
        }
    } else if f.tag == 2 {
        match as_range(f.value) {
            Err(x) => Err(x),
            Ok((s, e)) => match stop_time_update_merged(data, s, e, ctx, stop_time_update_default()) {
                Ok(n) => Ok(SpecTripUpdate { stop_time_update: m.stop_time_update.push(n), ..m }),
                Err(x) => Err(x),
            },
        }
    } else if f.tag == 3 {
        match as_range(f.value) {
            Err(x) => Err(x),
            Ok((s, e)) => match vehicle_descriptor_merged(data, s, e, ctx, match m.vehicle {
                Some(n) => n,
                None => vehicle_descriptor_default(),
            }) {
                Ok(n) => Ok(SpecTripUpdate { vehicle: Some(n), ..m }),
                Err(x) => Err(x),
            },
        }
    } else if f.tag == 4 {
        match as_varint(f.value) {
            Ok(v) => Ok(SpecTripUpdate { timestamp: Some(v), ..m }),
            Err(x) => Err(x),
        }
    } else if f.tag == 5 {
        match as_varint(f.value) {
            Ok(v) => Ok(SpecTripUpdate { delay: Some(v as i32), ..m }),
            Err(x) => Err(x),
        }
    } else if f.tag == 6 {
        match as_range(f.value) {
            Err(x) => Err(x),
            Ok((s, e)) => match raw_merged(data, RawKind::TripProperties, s, e, ctx, match m.trip_properties {
                Some(n) => n,
                None => Seq::empty(),
            }) {
                Ok(n) => Ok(SpecTripUpdate { trip_properties: Some(n), ..m }),
                Err(x) => Err(x),
            },
        }
    } else {
        Ok(m)
    }
}

pub open spec fn trip_update_step(data: Seq<u8>, ctx: nat) -> spec_fn(SpecTripUpdate, Field) -> Result<
    SpecTripUpdate,
    ErrorKind,
> {
    |m: SpecTripUpdate, f: Field| trip_update_applied(data, f, m, ctx)
}

/// One occurrence of a `TripUpdate`, between `s` and `e`, merged into `init`:
/// the nesting budget must be above zero, and the fields are read with one
/// less.
pub open spec fn trip_update_merged(data: Seq<u8>, s: nat, e: nat, ctx: nat, init: SpecTripUpdate) -> Result<
    SpecTripUpdate,
    ErrorKind,
> {
    if ctx == 0 {
        Err(ErrorKind::RecursionLimitReached)
    } else {
        match spec_fields(data, s, e, (ctx - 1) as nat) {
            Err(x) => Err(x),
            Ok(fs) => fold_fields(fs, init, trip_update_step(data, (ctx - 1) as nat)),
        }
    }
}

fn apply_trip_update_field(data: &[u8], f: Field, m: &mut TripUpdate, ctx: u32) -> (res: Result<
    (),
    ParseError,
>)
    requires
        value_in(f.value, data@.len()),
    ensures
        match res {
            Ok(_) => trip_update_applied(data@, f, old(m).deep_view(), ctx as nat) == Ok::<
                SpecTripUpdate,
                ErrorKind,
            >(final(m).deep_view()),
            Err(x) => trip_update_applied(data@, f, old(m).deep_view(), ctx as nat) == Err::<
                SpecTripUpdate,
                ErrorKind,
            >(x.kind()),
        },
{
    reveal(trip_update_applied);
    if f.tag == 1 {
        let (s, e) = match get_range(f.value) {
            Ok(r) => r,
            Err(x) => {
                return Err(x);
            },
        };
        if let Err(x) = merge_trip_descriptor(data, s, e, ctx, &mut m.trip) {
            return Err(x);
        }
    } else if f.tag == 2 {
        let (s, e) = match get_range(f.value) {
            Ok(r) => r,
            Err(x) => {
                return Err(x);
            },
        };
        let mut sub = StopTimeUpdate::new();
        if let Err(x) = merge_stop_time_update(data, s, e, ctx, &mut sub) {
            return Err(x);
        }
        let ghost before = m.stop_time_update.deep_view();
        let ghost sv = sub.deep_view();
        m.stop_time_update.push(sub);
        assert(m.stop_time_update.deep_view() =~= before.push(sv));
    } else if f.tag == 3 {
        let (s, e) = match get_range(f.value) {
            Ok(r) => r,
            Err(x) => {
                return Err(x);
            },
        };
        let mut sub = match m.vehicle.take() {
            Some(n) => n,
            None => VehicleDescriptor::new(),
        };
        if let Err(x) = merge_vehicle_descriptor(data, s, e, ctx, &mut sub) {
            return Err(x);
        }
        m.vehicle = Some(sub);
    } else if f.tag == 4 {
        match get_varint(f.value) {
            Ok(v) => {
                m.timestamp = Some(v);
            },
            Err(x) => {
                return Err(x);
            },
        }
    } else if f.tag == 5 {
        match get_varint(f.value) {
            Ok(v) => {
                m.delay = Some(v as i32);
            },
            Err(x) => {
                return Err(x);
            },
        }
    } else if f.tag == 6 {
        let (s, e) = match get_range(f.value) {
            Ok(r) => r,
            Err(x) => {
                return Err(x);
            },
        };
        let mut sub = match m.trip_properties.take() {
            Some(n) => n,
            None => RawMessage::new(),
        };
        if let Err(x) = merge_raw(data, RawKind::TripProperties, s, e, ctx, &mut sub) {
            return Err(x);
        }
        m.trip_properties = Some(sub);
    }
    Ok(())
}

/// Merges the `TripUpdate` between `s` and `e` into `m`.
pub fn merge_trip_update(data: &[u8], s: usize, e: usize, ctx: u32, m: &mut TripUpdate) -> (res: Result<
    (),
    ParseError,
>)
    requires
        s <= e <= data@.len(),
    ensures
        match res {
            Ok(_) => trip_update_merged(data@, s as nat, e as nat, ctx as nat, old(m).deep_view()) == Ok::<
                SpecTripUpdate,
                ErrorKind,
            >(final(m).deep_view()),
            Err(x) => trip_update_merged(data@, s as nat, e as nat, ctx as nat, old(m).deep_view()) == Err::<
                SpecTripUpdate,
                ErrorKind,
            >(x.kind()),
        },
{
    if ctx == 0 {
        return Err(ParseError::RecursionLimitReached);
    }
    let _len = data.len();
    let fs = match split_fields(data, s, e, ctx - 1) {
        Ok(fs) => fs,
        Err(x) => {
            return Err(x);
        },
    };
    proof {
        lemma_fields_within(data@, s as nat, e as nat, (ctx - 1) as nat);
        assert(fs@.skip(0) =~= fs@);
    }
    let ghost init = m.deep_view();
    let mut i: usize = 0;
    while i < fs.len()
        invariant
            0 <= i <= fs@.len(),
            s <= e <= data@.len(),
            ctx > 0,
            init == old(m).deep_view(),
            fields_within(fs@, s as nat, e as nat),
            spec_fields(data@, s as nat, e as nat, (ctx - 1) as nat) == Ok::<Seq<Field>, ErrorKind>(fs@),
            fold_fields(fs@, init, trip_update_step(data@, (ctx - 1) as nat)) == fold_fields(
                fs@.skip(i as int),
                m.deep_view(),
                trip_update_step(data@, (ctx - 1) as nat),
            ),
        decreases fs@.len() - i,
    {
        proof {
            lemma_fold_step(fs@, i as int, init, m.deep_view(), trip_update_step(data@, (ctx - 1) as nat));
        }
        if let Err(x) = apply_trip_update_field(data, fs[i], m, ctx - 1) {
            return Err(x);
        }
        i += 1;
    }
    proof {
        assert(fs@.skip(fs@.len() as int) =~= Seq::<Field>::empty());
    }
    Ok(())
}

/// The effect of one field on a `StopTimeEvent`; fields the schema does not know
/// are left aside.
#[verifier::opaque]
pub open spec fn stop_time_event_applied(data: Seq<u8>, f: Field, m: SpecStopTimeEvent, ctx: nat) -> Result<
    SpecStopTimeEvent,
    ErrorKind,
> {
    if f.tag == 1 {
        match as_varint(f.value) {
            Ok(v) => Ok(SpecStopTimeEvent { delay: Some(v as i32), ..m }),
            Err(x) => Err(x),
        }
    } else if f.tag == 2 {
        match as_varint(f.value) {
            Ok(v) => Ok(SpecStopTimeEvent { time: Some(v as i64), ..m }),
            Err(x) => Err(x),
        }
    } else if f.tag == 3 {
        match as_varint(f.value) {
            Ok(v) => Ok(SpecStopTimeEvent { uncertainty: Some(v as i32), ..m }),
            Err(x) => Err(x),
        }
    } else if f.tag == 4 {
        match as_varint(f.value) {
            Ok(v) => Ok(SpecStopTimeEvent { scheduled_time: Some(v as i64), ..m }),
            Err(x) => Err(x),
        }
    } else {
        Ok(m)
    }
}

pub open spec fn stop_time_event_step(data: Seq<u8>, ctx: nat) -> spec_fn(SpecStopTimeEvent, Field) -> Result<
    SpecStopTimeEvent,
    ErrorKind,
> {
    |m: SpecStopTimeEvent, f: Field| stop_time_event_applied(data, f, m, ctx)
}

/// One occurrence of a `StopTimeEvent`, between `s` and `e`, merged into `init`:
/// the nesting budget must be above zero, and the fields are read with one
/// less.
pub open spec fn stop_time_event_merged(data: Seq<u8>, s: nat, e: nat, ctx: nat, init: SpecStopTimeEvent) -> Result<
    SpecStopTimeEvent,
    ErrorKind,
> {
    if ctx == 0 {
        Err(ErrorKind::RecursionLimitReached)
    } else {
        match spec_fields(data, s, e, (ctx - 1) as nat) {
            Err(x) => Err(x),
            Ok(fs) => fold_fields(fs, init, stop_time_event_step(data, (ctx - 1) as nat)),
        }
    }
}

fn apply_stop_time_event_field(data: &[u8], f: Field, m: &mut StopTimeEvent, ctx: u32) -> (res: Result<
    (),
    ParseError,
>)
    requires
        value_in(f.value, data@.len()),
    ensures
        match res {
            Ok(_) => stop_time_event_applied(data@, f, old(m).deep_view(), ctx as nat) == Ok::<
                SpecStopTimeEvent,
                ErrorKind,
            >(final(m).deep_view()),
            Err(x) => stop_time_event_applied(data@, f, old(m).deep_view(), ctx as nat) == Err::<
                SpecStopTimeEvent,
                ErrorKind,
            >(x.kind()),
        },
{
    reveal(stop_time_event_applied);
    if f.tag == 1 {
        match get_varint(f.value) {
            Ok(v) => {
                m.delay = Some(v as i32);
            },
            Err(x) => {
                return Err(x);
            },
        }
    } else if f.tag == 2 {
        match get_varint(f.value) {
            Ok(v) => {
                m.time = Some(v as i64);
            },
            Err(x) => {
                return Err(x);
            },
        }
    } else if f.tag == 3 {
        match get_varint(f.value) {
            Ok(v) => {
                m.uncertainty = Some(v as i32);
            },
            Err(x) => {
                return Err(x);
            },
        }
    } else if f.tag == 4 {
        match get_varint(f.value) {
            Ok(v) => {
                m.scheduled_time = Some(v as i64);
            },
            Err(x) => {
                return Err(x);
            },
        }
    }
    Ok(())
}

/// Merges the `StopTimeEvent` between `s` and `e` into `m`.
pub fn merge_stop_time_event(data: &[u8], s: usize, e: usize, ctx: u32, m: &mut StopTimeEvent) -> (res: Result<
    (),
    ParseError,
>)
    requires
        s <= e <= data@.len(),
    ensures
        match res {
            Ok(_) => stop_time_event_merged(data@, s as nat, e as nat, ctx as nat, old(m).deep_view()) == Ok::<
                SpecStopTimeEvent,
                ErrorKind,
            >(final(m).deep_view()),
            Err(x) => stop_time_event_merged(data@, s as nat, e as nat, ctx as nat, old(m).deep_view()) == Err::<
                SpecStopTimeEvent,
                ErrorKind,
            >(x.kind()),
        },
{
    if ctx == 0 {
        return Err(ParseError::RecursionLimitReached);
    }
    let _len = data.len();
    let fs = match split_fields(data, s, e, ctx - 1) {
        Ok(fs) => fs,
        Err(x) => {
            return Err(x);
        },
    };
    proof {
        lemma_fields_within(data@, s as nat, e as nat, (ctx - 1) as nat);
        assert(fs@.skip(0) =~= fs@);
    }
    let ghost init = m.deep_view();
    let mut i: usize = 0;
    while i < fs.len()
        invariant
            0 <= i <= fs@.len(),
            s <= e <= data@.len(),
            ctx > 0,
            init == old(m).deep_view(),
            fields_within(fs@, s as nat, e as nat),
            spec_fields(data@, s as nat, e as nat, (ctx - 1) as nat) == Ok::<Seq<Field>, ErrorKind>(fs@),
            fold_fields(fs@, init, stop_time_event_step(data@, (ctx - 1) as nat)) == fold_fields(
                fs@.skip(i as int),
                m.deep_view(),
                stop_time_event_step(data@, (ctx - 1) as nat),
            ),
        decreases fs@.len() - i,
    {
        proof {
            lemma_fold_step(fs@, i as int, init, m.deep_view(), stop_time_event_step(data@, (ctx - 1) as nat));
        }
        if let Err(x) = apply_stop_time_event_field(data, fs[i], m, ctx - 1) {
            return Err(x);
        }
        i += 1;
    }
    proof {
        assert(fs@.skip(fs@.len() as int) =~= Seq::<Field>::empty());
    }
    Ok(())
}

/// The effect of one field on a `StopTimeUpdate`; fields the schema does not know
/// are left aside.
#[verifier::opaque]
pub open spec fn stop_time_update_applied(data: Seq<u8>, f: Field, m: SpecStopTimeUpdate, ctx: nat) -> Result<
    SpecStopTimeUpdate,
    ErrorKind,
> {
    if f.tag == 1 {
        match as_varint(f.value) {
            Ok(v) => Ok(SpecStopTimeUpdate { stop_sequence: Some(v as u32), ..m }),
            Err(x) => Err(x),
        }
    } else if f.tag == 2 {
        match as_range(f.value) {
            Err(x) => Err(x),
            Ok((s, e)) => match stop_time_event_merged(data, s, e, ctx, match m.arrival {
                Some(n) => n,
                None => stop_time_event_default(),
            }) {
                Ok(n) => Ok(SpecStopTimeUpdate { arrival: Some(n), ..m }),
                Err(x) => Err(x),
            },
        }
    } else if f.tag == 3 {
        match as_range(f.value) {
            Err(x) => Err(x),
            Ok((s, e)) => match stop_time_event_merged(data, s, e, ctx, match m.departure {
                Some(n) => n,
                None => stop_time_event_default(),
            }) {
                Ok(n) => Ok(SpecStopTimeUpdate { departure: Some(n), ..m }),
                Err(x) => Err(x),
            },
        }
    } else if f.tag == 4 {
        match as_string(data, f.value) {
            Ok(v) => Ok(SpecStopTimeUpdate { stop_id: Some(v), ..m }),
            Err(x) => Err(x),
        }
    } else if f.tag == 5 {
        match as_varint(f.value) {
            Ok(v) => Ok(SpecStopTimeUpdate { schedule_relationship: Some(v as i32), ..m }),
            Err(x) => Err(x),
        }
    } else if f.tag == 6 {
        match as_range(f.value) {
            Err(x) => Err(x),
            Ok((s, e)) => match raw_merged(data, RawKind::StopTimeProperties, s, e, ctx, match m.stop_time_properties {
                Some(n) => n,
                None => Seq::empty(),
            }) {
                Ok(n) => Ok(SpecStopTimeUpdate { stop_time_properties: Some(n), ..m }),
                Err(x) => Err(x),
            },
        }
    } else if f.tag == 7 {
        match as_varint(f.value) {
            Ok(v) => Ok(SpecStopTimeUpdate { departure_occupancy_status: Some(v as i32), ..m }),
            Err(x) => Err(x),
        }
    } else {
        Ok(m)
    }
}

pub open spec fn stop_time_update_step(data: Seq<u8>, ctx: nat) -> spec_fn(SpecStopTimeUpdate, Field) -> Result<
    SpecStopTimeUpdate,
    ErrorKind,
> {
    |m: SpecStopTimeUpdate, f: Field| stop_time_update_applied(data, f, m, ctx)
}

/// One occurrence of a `StopTimeUpdate`, between `s` and `e`, merged into `init`:
/// the nesting budget must be above zero, and the fields are read with one
/// less.
pub open spec fn stop_time_update_merged(data: Seq<u8>, s: nat, e: nat, ctx: nat, init: SpecStopTimeUpdate) -> Result<
    SpecStopTimeUpdate,
    ErrorKind,
> {
    if ctx == 0 {
        Err(ErrorKind::RecursionLimitReached)
    } else {
        match spec_fields(data, s, e, (ctx - 1) as nat) {
            Err(x) => Err(x),
            Ok(fs) => fold_fields(fs, init, stop_time_update_step(data, (ctx - 1) as nat)),
        }
    }
}

fn apply_stop_time_update_field(data: &[u8], f: Field, m: &mut StopTimeUpdate, ctx: u32) -> (res: Result<
    (),
    ParseError,
>)
    requires
        value_in(f.value, data@.len()),
    ensures
        match res {
            Ok(_) => stop_time_update_applied(data@, f, old(m).deep_view(), ctx as nat) == Ok::<
                SpecStopTimeUpdate,
                ErrorKind,
            >(final(m).deep_view()),
            Err(x) => stop_time_update_applied(data@, f, old(m).deep_view(), ctx as nat) == Err::<
                SpecStopTimeUpdate,
                ErrorKind,
            >(x.kind()),
        },
{
    reveal(stop_time_update_applied);
    if f.tag == 1 {
        match get_varint(f.value) {
            Ok(v) => {
                m.stop_sequence = Some(v as u32);
            },
            Err(x) => {
                return Err(x);
            },
        }
    } else if f.tag == 2 {
        let (s, e) = match get_range(f.value) {
            Ok(r) => r,
            Err(x) => {
                return Err(x);
            },
        };
        let mut sub = match m.arrival.take() {
            Some(n) => n,
            None => StopTimeEvent::new(),
        };
        if let Err(x) = merge_stop_time_event(data, s, e, ctx, &mut sub) {
            return Err(x);
        }
        m.arrival = Some(sub);
    } else if f.tag == 3 {
        let (s, e) = match get_range(f.value) {
            Ok(r) => r,
            Err(x) => {
                return Err(x);
            },
        };
        let mut sub = match m.departure.take() {
            Some(n) => n,
            None => StopTimeEvent::new(),
        };
        if let Err(x) = merge_stop_time_event(data, s, e, ctx, &mut sub) {
            return Err(x);
        }
        m.departure = Some(sub);
    } else if f.tag == 4 {
        match get_string(data, f.value) {
            Ok(v) => {
                m.stop_id = Some(v);
            },
            Err(x) => {
                return Err(x);
            },
        }
    } else if f.tag == 5 {
        match get_varint(f.value) {
            Ok(v) => {
                m.schedule_relationship = Some(v as i32);
            },
            Err(x) => {
                return Err(x);
            },
        }
    } else if f.tag == 6 {
        let (s, e) = match get_range(f.value) {
            Ok(r) => r,
            Err(x) => {
                return Err(x);
            },
        };
        let mut sub = match m.stop_time_properties.take() {
            Some(n) => n,
            None => RawMessage::new(),
        };
        if let Err(x) = merge_raw(data, RawKind::StopTimeProperties, s, e, ctx, &mut sub) {
            return Err(x);
        }
        m.stop_time_properties = Some(sub);
    } else if f.tag == 7 {
        match get_varint(f.value) {
            Ok(v) => {
                m.departure_occupancy_status = Some(v as i32);
            },
            Err(x) => {
                return Err(x);
            },
        }
    }
    Ok(())
}

/// Merges the `StopTimeUpdate` between `s` and `e` into `m`.
pub fn merge_stop_time_update(data: &[u8], s: usize, e: usize, ctx: u32, m: &mut StopTimeUpdate) -> (res: Result<
    (),
    ParseError,
>)
    requires
        s <= e <= data@.len(),
    ensures
        match res {
            Ok(_) => stop_time_update_merged(data@, s as nat, e as nat, ctx as nat, old(m).deep_view()) == Ok::<
                SpecStopTimeUpdate,
                ErrorKind,
            >(final(m).deep_view()),
            Err(x) => stop_time_update_merged(data@, s as nat, e as nat, ctx as nat, old(m).deep_view()) == Err::<
                SpecStopTimeUpdate,
                ErrorKind,
            >(x.kind()),
        },
{
    if ctx == 0 {
        return Err(ParseError::RecursionLimitReached);
    }
    let _len = data.len();
    let fs = match split_fields(data, s, e, ctx - 1) {
        Ok(fs) => fs,
        Err(x) => {
            return Err(x);
        },
    };
    proof {
        lemma_fields_within(data@, s as nat, e as nat, (ctx - 1) as nat);
        assert(fs@.skip(0) =~= fs@);
    }
    let ghost init = m.deep_view();
    let mut i: usize = 0;
    while i < fs.len()
        invariant
            0 <= i <= fs@.len(),
            s <= e <= data@.len(),
            ctx > 0,
            init == old(m).deep_view(),
            fields_within(fs@, s as nat, e as nat),
            spec_fields(data@, s as nat, e as nat, (ctx - 1) as nat) == Ok::<Seq<Field>, ErrorKind>(fs@),
            fold_fields(fs@, init, stop_time_update_step(data@, (ctx - 1) as nat)) == fold_fields(
                fs@.skip(i as int),
                m.deep_view(),
                stop_time_update_step(data@, (ctx - 1) as nat),
            ),
        decreases fs@.len() - i,
    {
        proof {
            lemma_fold_step(fs@, i as int, init, m.deep_view(), stop_time_update_step(data@, (ctx - 1) as nat));
        }
        if let Err(x) = apply_stop_time_update_field(data, fs[i], m, ctx - 1) {
            return Err(x);
        }
        i += 1;
    }
    proof {
        assert(fs@.skip(fs@.len() as int) =~= Seq::<Field>::empty());
    }
    Ok(())
}

/// The effect of one field on a `VehiclePosition`; fields the schema does not know
/// are left aside.
#[verifier::opaque]
pub open spec fn vehicle_position_applied(data: Seq<u8>, f: Field, m: SpecVehiclePosition, ctx: nat) -> Result<
    SpecVehiclePosition,
    ErrorKind,
> {
    if f.tag == 1 {
        match as_range(f.value) {
            Err(x) => Err(x),
            Ok((s, e)) => match trip_descriptor_merged(data, s, e, ctx, match m.trip {
                Some(n) => n,
                None => trip_descriptor_default(),
            }) {
                Ok(n) => Ok(SpecVehiclePosition { trip: Some(n), ..m }),
                Err(x) => Err(x),
            },
        }
    } else if f.tag == 2 {
        match as_range(f.value) {
            Err(x) => Err(x),
            Ok((s, e)) => match position_merged(data, s, e, ctx, match m.position {
                Some(n) => n,
                None => position_default(),
            }) {
                Ok(n) => Ok(SpecVehiclePosition { position: Some(n), ..m }),
                Err(x) => Err(x),
            },
        }
    } else if f.tag == 3 {
        match as_varint(f.value) {
            Ok(v) => Ok(SpecVehiclePosition { current_stop_sequence: Some(v as u32), ..m }),
            Err(x) => Err(x),
        }
    } else if f.tag == 4 {
        match as_varint(f.value) {
            Ok(v) => Ok(SpecVehiclePosition { current_status: Some(v as i32), ..m }),
            Err(x) => Err(x),
        }
    } else if f.tag == 5 {
        match as_varint(f.value) {
            Ok(v) => Ok(SpecVehiclePosition { timestamp: Some(v), ..m }),
            Err(x) => Err(x),
        }
    } else if f.tag == 6 {
        match as_varint(f.value) {
            Ok(v) => Ok(SpecVehiclePosition { congestion_level: Some(v as i32), ..m }),
            Err(x) => Err(x),
        }
    } else if f.tag == 7 {
        match as_string(data, f.value) {
            Ok(v) => Ok(SpecVehiclePosition { stop_id: Some(v), ..m }),
            Err(x) => Err(x),
        }
    } else if f.tag == 8 {
        match as_range(f.value) {
            Err(x) => Err(x),
            Ok((s, e)) => match vehicle_descriptor_merged(data, s, e, ctx, match m.vehicle {
                Some(n) => n,
                None => vehicle_descriptor_default(),
            }) {
                Ok(n) => Ok(SpecVehiclePosition { vehicle: Some(n), ..m }),
                Err(x) => Err(x),
            },
        }
    } else if f.tag == 9 {
        match as_varint(f.value) {
            Ok(v) => Ok(SpecVehiclePosition { occupancy_status: Some(v as i32), ..m }),
            Err(x) => Err(x),
        }
    } else if f.tag == 10 {
        match as_varint(f.value) {
            Ok(v) => Ok(SpecVehiclePosition { occupancy_percentage: Some(v as u32), ..m }),
            Err(x) => Err(x),
        }
    } else if f.tag == 11 {
        match as_range(f.value) {
            Err(x) => Err(x),
            Ok((s, e)) => match raw_merged(data, RawKind::CarriageDetails, s, e, ctx, Seq::empty()) {
                Ok(n) => Ok(SpecVehiclePosition { multi_carriage_details: m.multi_carriage_details.push(n), ..m }),
                Err(x) => Err(x),
            },
        }
    } else {
        Ok(m)
    }
}

pub open spec fn vehicle_position_step(data: Seq<u8>, ctx: nat) -> spec_fn(SpecVehiclePosition, Field) -> Result<
    SpecVehiclePosition,
    ErrorKind,
> {
    |m: SpecVehiclePosition, f: Field| vehicle_position_applied(data, f, m, ctx)
}

/// One occurrence of a `VehiclePosition`, between `s` and `e`, merged into `init`:
/// the nesting budget must be above zero, and the fields are read with one
/// less.
pub open spec fn vehicle_position_merged(data: Seq<u8>, s: nat, e: nat, ctx: nat, init: SpecVehiclePosition) -> Result<
    SpecVehiclePosition,
    ErrorKind,
> {
    if ctx == 0 {
        Err(ErrorKind::RecursionLimitReached)
    } else {
        match spec_fields(data, s, e, (ctx - 1) as nat) {
            Err(x) => Err(x),
            Ok(fs) => fold_fields(fs, init, vehicle_position_step(data, (ctx - 1) as nat)),
        }
    }
}

fn apply_vehicle_position_field(data: &[u8], f: Field, m: &mut VehiclePosition, ctx: u32) -> (res: Result<
    (),
    ParseError,
>)
    requires
        value_in(f.value, data@.len()),
    ensures
        match res {
            Ok(_) => vehicle_position_applied(data@, f, old(m).deep_view(), ctx as nat) == Ok::<
                SpecVehiclePosition,
                ErrorKind,
            >(final(m).deep_view()),
            Err(x) => vehicle_position_applied(data@, f, old(m).deep_view(), ctx as nat) == Err::<
                SpecVehiclePosition,
                ErrorKind,
            >(x.kind()),
        },
{
    reveal(vehicle_position_applied);
    if f.tag == 1 {
        let (s, e) = match get_range(f.value) {
            Ok(r) => r,
            Err(x) => {
                return Err(x);
            },
        };
        let mut sub = match m.trip.take() {
            Some(n) => n,
            None => TripDescriptor::new(),
        };
        if let Err(x) = merge_trip_descriptor(data, s, e, ctx, &mut sub) {
            return Err(x);
        }
        m.trip = Some(sub);
    } else if f.tag == 2 {
        let (s, e) = match get_range(f.value) {
            Ok(r) => r,
            Err(x) => {
                return Err(x);
            },
        };
        let mut sub = match m.position.take() {
            Some(n) => n,
            None => Position::new(),
        };
        if let Err(x) = merge_position(data, s, e, ctx, &mut sub) {
            return Err(x);
        }
        m.position = Some(sub);
    } else if f.tag == 3 {
        match get_varint(f.value) {
            Ok(v) => {
                m.current_stop_sequence = Some(v as u32);
            },
            Err(x) => {
                return Err(x);
            },
        }
    } else if f.tag == 4 {
        match get_varint(f.value) {
            Ok(v) => {
                m.current_status = Some(v as i32);
            },
            Err(x) => {
                return Err(x);
            },
        }
    } else if f.tag == 5 {
        match get_varint(f.value) {
            Ok(v) => {
                m.timestamp = Some(v);
            },
            Err(x) => {
                return Err(x);
            },
        }
    } else if f.tag == 6 {
        match get_varint(f.value) {
            Ok(v) => {
                m.congestion_level = Some(v as i32);
            },
            Err(x) => {
                return Err(x);
            },
        }
    } else if f.tag == 7 {
        match get_string(data, f.value) {
            Ok(v) => {
                m.stop_id = Some(v);
            },
            Err(x) => {
                return Err(x);
            },
        }
    } else if f.tag == 8 {
        let (s, e) = match get_range(f.value) {
            Ok(r) => r,
            Err(x) => {
                return Err(x);
            },
        };
        let mut sub = match m.vehicle.take() {
            Some(n) => n,
            None => VehicleDescriptor::new(),
        };
        if let Err(x) = merge_vehicle_descriptor(data, s, e, ctx, &mut sub) {
            return Err(x);
        }
        m.vehicle = Some(sub);
    } else if f.tag == 9 {
        match get_varint(f.value) {
            Ok(v) => {
                m.occupancy_status = Some(v as i32);
            },
            Err(x) => {
                return Err(x);
            },
        }
    } else if f.tag == 10 {
        match get_varint(f.value) {
            Ok(v) => {
                m.occupancy_percentage = Some(v as u32);
            },
            Err(x) => {
                return Err(x);
            },
        }
    } else if f.tag == 11 {
        let (s, e) = match get_range(f.value) {
            Ok(r) => r,
            Err(x) => {
                return Err(x);
            },
        };
        let mut sub = RawMessage::new();
        if let Err(x) = merge_raw(data, RawKind::CarriageDetails, s, e, ctx, &mut sub) {
            return Err(x);
        }
        let ghost before = m.multi_carriage_details.deep_view();
        let ghost sv = sub.deep_view();
        m.multi_carriage_details.push(sub);
        assert(m.multi_carriage_details.deep_view() =~= before.push(sv));
    }
    Ok(())
}

/// Merges the `VehiclePosition` between `s` and `e` into `m`.
pub fn merge_vehicle_position(data: &[u8], s: usize, e: usize, ctx: u32, m: &mut VehiclePosition) -> (res: Result<
    (),
    ParseError,
>)
    requires
        s <= e <= data@.len(),
    ensures
        match res {
            Ok(_) => vehicle_position_merged(data@, s as nat, e as nat, ctx as nat, old(m).deep_view()) == Ok::<
                SpecVehiclePosition,
                ErrorKind,
            >(final(m).deep_view()),
            Err(x) => vehicle_position_merged(data@, s as nat, e as nat, ctx as nat, old(m).deep_view()) == Err::<
                SpecVehiclePosition,
                ErrorKind,
            >(x.kind()),
        },
{
    if ctx == 0 {
        return Err(ParseError::RecursionLimitReached);
    }
    let _len = data.len();
    let fs = match split_fields(data, s, e, ctx - 1) {
        Ok(fs) => fs,
        Err(x) => {
            return Err(x);
        },
    };
    proof {
        lemma_fields_within(data@, s as nat, e as nat, (ctx - 1) as nat);
        assert(fs@.skip(0) =~= fs@);
    }
    let ghost init = m.deep_view();
    let mut i: usize = 0;
    while i < fs.len()
        invariant
            0 <= i <= fs@.len(),
            s <= e <= data@.len(),
            ctx > 0,
            init == old(m).deep_view(),
            fields_within(fs@, s as nat, e as nat),
            spec_fields(data@, s as nat, e as nat, (ctx - 1) as nat) == Ok::<Seq<Field>, ErrorKind>(fs@),
            fold_fields(fs@, init, vehicle_position_step(data@, (ctx - 1) as nat)) == fold_fields(
                fs@.skip(i as int),
                m.deep_view(),
                vehicle_position_step(data@, (ctx - 1) as nat),
            ),
        decreases fs@.len() - i,
    {
        proof {
            lemma_fold_step(fs@, i as int, init, m.deep_view(), vehicle_position_step(data@, (ctx - 1) as nat));
        }
        if let Err(x) = apply_vehicle_position_field(data, fs[i], m, ctx - 1) {
            return Err(x);
        }
        i += 1;
    }
    proof {
        assert(fs@.skip(fs@.len() as int) =~= Seq::<Field>::empty());
    }
    Ok(())
}

/// The effect of one field on a `Position`; fields the schema does not know
/// are left aside.
#[verifier::opaque]
pub open spec fn position_applied(data: Seq<u8>, f: Field, m: SpecPosition, ctx: nat) -> Result<
    SpecPosition,
    ErrorKind,
> {
    if f.tag == 1 {
        match as_fixed32(f.value) {
            Ok(v) => Ok(SpecPosition { latitude: v, ..m }),
            Err(x) => Err(x),
        }
    } else if f.tag == 2 {
        match as_fixed32(f.value) {
            Ok(v) => Ok(SpecPosition { longitude: v, ..m }),
            Err(x) => Err(x),
        }
    } else if f.tag == 3 {
        match as_fixed32(f.value) {
            Ok(v) => Ok(SpecPosition { bearing: Some(v), ..m }),
            Err(x) => Err(x),
        }
    } else if f.tag == 4 {
        match as_fixed64(f.value) {
            Ok(v) => Ok(SpecPosition { odometer: Some(v), ..m }),
            Err(x) => Err(x),
        }
    } else if f.tag == 5 {
        match as_fixed32(f.value) {
            Ok(v) => Ok(SpecPosition { speed: Some(v), ..m }),
            Err(x) => Err(x),
        }
    } else {
        Ok(m)
    }
}

pub open spec fn position_step(data: Seq<u8>, ctx: nat) -> spec_fn(SpecPosition, Field) -> Result<
    SpecPosition,
    ErrorKind,
> {
    |m: SpecPosition, f: Field| position_applied(data, f, m, ctx)
}

/// One occurrence of a `Position`, between `s` and `e`, merged into `init`:
/// the nesting budget must be above zero, and the fields are read with one
/// less.
pub open spec fn position_merged(data: Seq<u8>, s: nat, e: nat, ctx: nat, init: SpecPosition) -> Result<
    SpecPosition,
    ErrorKind,
> {
    if ctx == 0 {
        Err(ErrorKind::RecursionLimitReached)
    } else {
        match spec_fields(data, s, e, (ctx - 1) as nat) {
            Err(x) => Err(x),
            Ok(fs) => fold_fields(fs, init, position_step(data, (ctx - 1) as nat)),
        }
    }
}

fn apply_position_field(data: &[u8], f: Field, m: &mut Position, ctx: u32) -> (res: Result<
    (),
    ParseError,
>)
    requires
        value_in(f.value, data@.len()),
    ensures
        match res {
            Ok(_) => position_applied(data@, f, old(m).deep_view(), ctx as nat) == Ok::<
                SpecPosition,
                ErrorKind,
            >(final(m).deep_view()),
            Err(x) => position_applied(data@, f, old(m).deep_view(), ctx as nat) == Err::<
                SpecPosition,
                ErrorKind,
            >(x.kind()),
        },
{
    reveal(position_applied);
    if f.tag == 1 {
        match get_fixed32(f.value) {
            Ok(v) => {
                m.latitude = v;
            },
            Err(x) => {
                return Err(x);
            },
        }
    } else if f.tag == 2 {
        match get_fixed32(f.value) {
            Ok(v) => {
                m.longitude = v;
            },
            Err(x) => {
                return Err(x);
            },
        }
    } else if f.tag == 3 {
        match get_fixed32(f.value) {
            Ok(v) => {
                m.bearing = Some(v);
            },
            Err(x) => {
                return Err(x);
            },
        }
    } else if f.tag == 4 {
        match get_fixed64(f.value) {
            Ok(v) => {
                m.odometer = Some(v);
            },
            Err(x) => {
                return Err(x);
            },
        }
    } else if f.tag == 5 {
        match get_fixed32(f.value) {
            Ok(v) => {
                m.speed = Some(v);
            },
            Err(x) => {
                return Err(x);
            },
        }
    }
    Ok(())
}

/// Merges the `Position` between `s` and `e` into `m`.
pub fn merge_position(data: &[u8], s: usize, e: usize, ctx: u32, m: &mut Position) -> (res: Result<
    (),
    ParseError,
>)
    requires
        s <= e <= data@.len(),
    ensures
        match res {
            Ok(_) => position_merged(data@, s as nat, e as nat, ctx as nat, old(m).deep_view()) == Ok::<
                SpecPosition,
                ErrorKind,
            >(final(m).deep_view()),
            Err(x) => position_merged(data@, s as nat, e as nat, ctx as nat, old(m).deep_view()) == Err::<
                SpecPosition,
                ErrorKind,
            >(x.kind()),
        },
{
    if ctx == 0 {
        return Err(ParseError::RecursionLimitReached);
    }
    let _len = data.len();
    let fs = match split_fields(data, s, e, ctx - 1) {
        Ok(fs) => fs,
        Err(x) => {
            return Err(x);
        },
    };
    proof {
        lemma_fields_within(data@, s as nat, e as nat, (ctx - 1) as nat);
        assert(fs@.skip(0) =~= fs@);
    }
    let ghost init = m.deep_view();
    let mut i: usize = 0;
    while i < fs.len()
        invariant
            0 <= i <= fs@.len(),
            s <= e <= data@.len(),
            ctx > 0,
            init == old(m).deep_view(),
            fields_within(fs@, s as nat, e as nat),
            spec_fields(data@, s as nat, e as nat, (ctx - 1) as nat) == Ok::<Seq<Field>, ErrorKind>(fs@),
            fold_fields(fs@, init, position_step(data@, (ctx - 1) as nat)) == fold_fields(
                fs@.skip(i as int),
                m.deep_view(),
                position_step(data@, (ctx - 1) as nat),
            ),
        decreases fs@.len() - i,
    {
        proof {
            lemma_fold_step(fs@, i as int, init, m.deep_view(), position_step(data@, (ctx - 1) as nat));
        }
        if let Err(x) = apply_position_field(data, fs[i], m, ctx - 1) {
            return Err(x);
        }
        i += 1;
    }
    proof {
        assert(fs@.skip(fs@.len() as int) =~= Seq::<Field>::empty());
    }
    Ok(())
}

/// The effect of one field on a `TripDescriptor`; fields the schema does not know
/// are left aside.
#[verifier::opaque]
pub open spec fn trip_descriptor_applied(data: Seq<u8>, f: Field, m: SpecTripDescriptor, ctx: nat) -> Result<
    SpecTripDescriptor,
    ErrorKind,
> {
    if f.tag == 1 {
        match as_string(data, f.value) {
            Ok(v) => Ok(SpecTripDescriptor { trip_id: Some(v), ..m }),
            Err(x) => Err(x),
        }
    } else if f.tag == 2 {
        match as_string(data, f.value) {
            Ok(v) => Ok(SpecTripDescriptor { start_time: Some(v), ..m }),
            Err(x) => Err(x),
        }
    } else if f.tag == 3 {
        match as_string(data, f.value) {
            Ok(v) => Ok(SpecTripDescriptor { start_date: Some(v), ..m }),
            Err(x) => Err(x),
        }
    } else if f.tag == 4 {
        match as_varint(f.value) {
            Ok(v) => Ok(SpecTripDescriptor { schedule_relationship: Some(v as i32), ..m }),
            Err(x) => Err(x),
        }
    } else if f.tag == 5 {
        match as_string(data, f.value) {
            Ok(v) => Ok(SpecTripDescriptor { route_id: Some(v), ..m }),
            Err(x) => Err(x),
        }
    } else if f.tag == 6 {
        match as_varint(f.value) {
            Ok(v) => Ok(SpecTripDescriptor { direction_id: Some(v as u32), ..m }),
            Err(x) => Err(x),
        }
    } else if f.tag == 7 {
        match as_range(f.value) {
            Err(x) => Err(x),
            Ok((s, e)) => match modified_trip_selector_merged(data, s, e, ctx, match m.modified_trip {
                Some(n) => n,
                None => modified_trip_selector_default(),
            }) {
                Ok(n) => Ok(SpecTripDescriptor { modified_trip: Some(n), ..m }),
                Err(x) => Err(x),
            },
        }
    } else {
        Ok(m)
    }
}

pub open spec fn trip_descriptor_step(data: Seq<u8>, ctx: nat) -> spec_fn(SpecTripDescriptor, Field) -> Result<
    SpecTripDescriptor,
    ErrorKind,
> {
    |m: SpecTripDescriptor, f: Field| trip_descriptor_applied(data, f, m, ctx)
}

/// One occurrence of a `TripDescriptor`, between `s` and `e`, merged into `init`:
/// the nesting budget must be above zero, and the fields are read with one
/// less.
pub open spec fn trip_descriptor_merged(data: Seq<u8>, s: nat, e: nat, ctx: nat, init: SpecTripDescriptor) -> Result<
    SpecTripDescriptor,
    ErrorKind,
> {
    if ctx == 0 {
        Err(ErrorKind::RecursionLimitReached)
    } else {
        match spec_fields(data, s, e, (ctx - 1) as nat) {
            Err(x) => Err(x),
            Ok(fs) => fold_fields(fs, init, trip_descriptor_step(data, (ctx - 1) as nat)),
        }
    }
}

fn apply_trip_descriptor_field(data: &[u8], f: Field, m: &mut TripDescriptor, ctx: u32) -> (res: Result<
    (),
    ParseError,
>)
    requires
        value_in(f.value, data@.len()),
    ensures
        match res {
            Ok(_) => trip_descriptor_applied(data@, f, old(m).deep_view(), ctx as nat) == Ok::<
                SpecTripDescriptor,
                ErrorKind,
            >(final(m).deep_view()),
            Err(x) => trip_descriptor_applied(data@, f, old(m).deep_view(), ctx as nat) == Err::<
                SpecTripDescriptor,
                ErrorKind,
            >(x.kind()),
        },
{
    reveal(trip_descriptor_applied);
    if f.tag == 1 {
        match get_string(data, f.value) {
            Ok(v) => {
                m.trip_id = Some(v);
            },
            Err(x) => {
                return Err(x);
            },
        }
    } else if f.tag == 2 {
        match get_string(data, f.value) {
            Ok(v) => {
                m.start_time = Some(v);
            },
            Err(x) => {
                return Err(x);
            },
        }
    } else if f.tag == 3 {
        match get_string(data, f.value) {
            Ok(v) => {
                m.start_date = Some(v);
            },
            Err(x) => {
                return Err(x);
            },
        }
    } else if f.tag == 4 {
        match get_varint(f.value) {
            Ok(v) => {
                m.schedule_relationship = Some(v as i32);
            },
            Err(x) => {
                return Err(x);
            },
        }
    } else if f.tag == 5 {
        match get_string(data, f.value) {
            Ok(v) => {
                m.route_id = Some(v);
            },
            Err(x) => {
                return Err(x);
            },
        }
    } else if f.tag == 6 {
        match get_varint(f.value) {
            Ok(v) => {
                m.direction_id = Some(v as u32);
            },
            Err(x) => {
                return Err(x);
            },
        }
    } else if f.tag == 7 {
        let (s, e) = match get_range(f.value) {
            Ok(r) => r,
            Err(x) => {
                return Err(x);
            },
        };
        let mut sub = match m.modified_trip.take() {
            Some(n) => n,
            None => ModifiedTripSelector::new(),
        };
        if let Err(x) = merge_modified_trip_selector(data, s, e, ctx, &mut sub) {
            return Err(x);
        }
        m.modified_trip = Some(sub);
    }
    Ok(())
}

/// Merges the `TripDescriptor` between `s` and `e` into `m`.
pub fn merge_trip_descriptor(data: &[u8], s: usize, e: usize, ctx: u32, m: &mut TripDescriptor) -> (res: Result<
    (),
    ParseError,
>)
    requires
        s <= e <= data@.len(),
    ensures
        match res {
            Ok(_) => trip_descriptor_merged(data@, s as nat, e as nat, ctx as nat, old(m).deep_view()) == Ok::<
                SpecTripDescriptor,
                ErrorKind,
            >(final(m).deep_view()),
            Err(x) => trip_descriptor_merged(data@, s as nat, e as nat, ctx as nat, old(m).deep_view()) == Err::<
                SpecTripDescriptor,
                ErrorKind,
            >(x.kind()),
        },
{
    if ctx == 0 {
        return Err(ParseError::RecursionLimitReached);
    }
    let _len = data.len();
    let fs = match split_fields(data, s, e, ctx - 1) {
        Ok(fs) => fs,
        Err(x) => {
            return Err(x);
        },
    };
    proof {
        lemma_fields_within(data@, s as nat, e as nat, (ctx - 1) as nat);
        assert(fs@.skip(0) =~= fs@);
    }
    let ghost init = m.deep_view();
    let mut i: usize = 0;
    while i < fs.len()
        invariant
            0 <= i <= fs@.len(),
            s <= e <= data@.len(),
            ctx > 0,
            init == old(m).deep_view(),
            fields_within(fs@, s as nat, e as nat),
            spec_fields(data@, s as nat, e as nat, (ctx - 1) as nat) == Ok::<Seq<Field>, ErrorKind>(fs@),
            fold_fields(fs@, init, trip_descriptor_step(data@, (ctx - 1) as nat)) == fold_fields(
                fs@.skip(i as int),
                m.deep_view(),
                trip_descriptor_step(data@, (ctx - 1) as nat),
            ),
        decreases fs@.len() - i,
    {
        proof {
            lemma_fold_step(fs@, i as int, init, m.deep_view(), trip_descriptor_step(data@, (ctx - 1) as nat));
        }
        if let Err(x) = apply_trip_descriptor_field(data, fs[i], m, ctx - 1) {
            return Err(x);
        }
        i += 1;
    }
    proof {
        assert(fs@.skip(fs@.len() as int) =~= Seq::<Field>::empty());
    }
    Ok(())
}

/// The effect of one field on a `ModifiedTripSelector`; fields the schema does not know
/// are left aside.
#[verifier::opaque]
pub open spec fn modified_trip_selector_applied(data: Seq<u8>, f: Field, m: SpecModifiedTripSelector, ctx: nat) -> Result<
    SpecModifiedTripSelector,
    ErrorKind,
> {
    if f.tag == 1 {
        match as_string(data, f.value) {
            Ok(v) => Ok(SpecModifiedTripSelector { modifications_id: Some(v), ..m }),
            Err(x) => Err(x),
        }
    } else if f.tag == 2 {
        match as_string(data, f.value) {
            Ok(v) => Ok(SpecModifiedTripSelector { affected_trip_id: Some(v), ..m }),
            Err(x) => Err(x),
        }
    } else if f.tag == 3 {
        match as_string(data, f.value) {
            Ok(v) => Ok(SpecModifiedTripSelector { start_time: Some(v), ..m }),
            Err(x) => Err(x),
        }
    } else if f.tag == 4 {
        match as_string(data, f.value) {
            Ok(v) => Ok(SpecModifiedTripSelector { start_date: Some(v), ..m }),
            Err(x) => Err(x),
        }
    } else {
        Ok(m)
    }
}

pub open spec fn modified_trip_selector_step(data: Seq<u8>, ctx: nat) -> spec_fn(SpecModifiedTripSelector, Field) -> Result<
    SpecModifiedTripSelector,
    ErrorKind,
> {
    |m: SpecModifiedTripSelector, f: Field| modified_trip_selector_applied(data, f, m, ctx)
}

/// One occurrence of a `ModifiedTripSelector`, between `s` and `e`, merged into `init`:
/// the nesting budget must be above zero, and the fields are read with one
/// less.
pub open spec fn modified_trip_selector_merged(data: Seq<u8>, s: nat, e: nat, ctx: nat, init: SpecModifiedTripSelector) -> Result<
    SpecModifiedTripSelector,
    ErrorKind,
> {
    if ctx == 0 {
        Err(ErrorKind::RecursionLimitReached)
    } else {
        match spec_fields(data, s, e, (ctx - 1) as nat) {
            Err(x) => Err(x),
            Ok(fs) => fold_fields(fs, init, modified_trip_selector_step(data, (ctx - 1) as nat)),
        }
    }
}

fn apply_modified_trip_selector_field(data: &[u8], f: Field, m: &mut ModifiedTripSelector, ctx: u32) -> (res: Result<
    (),
    ParseError,
>)
    requires
        value_in(f.value, data@.len()),
    ensures
        match res {
            Ok(_) => modified_trip_selector_applied(data@, f, old(m).deep_view(), ctx as nat) == Ok::<
                SpecModifiedTripSelector,
                ErrorKind,
            >(final(m).deep_view()),
            Err(x) => modified_trip_selector_applied(data@, f, old(m).deep_view(), ctx as nat) == Err::<
                SpecModifiedTripSelector,
                ErrorKind,
            >(x.kind()),
        },
{
    reveal(modified_trip_selector_applied);
    if f.tag == 1 {
        match get_string(data, f.value) {
            Ok(v) => {
                m.modifications_id = Some(v);
            },
            Err(x) => {
                return Err(x);
            },
        }
    } else if f.tag == 2 {
        match get_string(data, f.value) {
            Ok(v) => {
                m.affected_trip_id = Some(v);
            },
            Err(x) => {
                return Err(x);
            },
        }
    } else if f.tag == 3 {
        match get_string(data, f.value) {
            Ok(v) => {
                m.start_time = Some(v);
            },
            Err(x) => {
                return Err(x);
            },
        }
    } else if f.tag == 4 {
        match get_string(data, f.value) {
            Ok(v) => {
                m.start_date = Some(v);
            },
            Err(x) => {
                return Err(x);
            },
        }
    }
    Ok(())
}

/// Merges the `ModifiedTripSelector` between `s` and `e` into `m`.
pub fn merge_modified_trip_selector(data: &[u8], s: usize, e: usize, ctx: u32, m: &mut ModifiedTripSelector) -> (res: Result<
    (),
    ParseError,
>)
    requires
        s <= e <= data@.len(),
    ensures
        match res {
            Ok(_) => modified_trip_selector_merged(data@, s as nat, e as nat, ctx as nat, old(m).deep_view()) == Ok::<
                SpecModifiedTripSelector,
                ErrorKind,
            >(final(m).deep_view()),
            Err(x) => modified_trip_selector_merged(data@, s as nat, e as nat, ctx as nat, old(m).deep_view()) == Err::<
                SpecModifiedTripSelector,
                ErrorKind,
            >(x.kind()),
        },
{
    if ctx == 0 {
        return Err(ParseError::RecursionLimitReached);
    }
    let _len = data.len();
    let fs = match split_fields(data, s, e, ctx - 1) {
        Ok(fs) => fs,
        Err(x) => {
            return Err(x);
        },
    };
    proof {
        lemma_fields_within(data@, s as nat, e as nat, (ctx - 1) as nat);
        assert(fs@.skip(0) =~= fs@);
    }
    let ghost init = m.deep_view();
    let mut i: usize = 0;
    while i < fs.len()
        invariant
            0 <= i <= fs@.len(),
            s <= e <= data@.len(),
            ctx > 0,
            init == old(m).deep_view(),
            fields_within(fs@, s as nat, e as nat),
            spec_fields(data@, s as nat, e as nat, (ctx - 1) as nat) == Ok::<Seq<Field>, ErrorKind>(fs@),
            fold_fields(fs@, init, modified_trip_selector_step(data@, (ctx - 1) as nat)) == fold_fields(
                fs@.skip(i as int),
                m.deep_view(),
                modified_trip_selector_step(data@, (ctx - 1) as nat),
            ),
        decreases fs@.len() - i,
    {
        proof {
            lemma_fold_step(fs@, i as int, init, m.deep_view(), modified_trip_selector_step(data@, (ctx - 1) as nat));
        }
        if let Err(x) = apply_modified_trip_selector_field(data, fs[i], m, ctx - 1) {
            return Err(x);
        }
        i += 1;
    }
    proof {
        assert(fs@.skip(fs@.len() as int) =~= Seq::<Field>::empty());
    }
    Ok(())
}

/// The effect of one field on a `VehicleDescriptor`; fields the schema does not know
/// are left aside.
#[verifier::opaque]
pub open spec fn vehicle_descriptor_applied(data: Seq<u8>, f: Field, m: SpecVehicleDescriptor, ctx: nat) -> Result<
    SpecVehicleDescriptor,
    ErrorKind,
> {
    if f.tag == 1 {
        match as_string(data, f.value) {
            Ok(v) => Ok(SpecVehicleDescriptor { id: Some(v), ..m }),
            Err(x) => Err(x),
        }
    } else if f.tag == 2 {
        match as_string(data, f.value) {
            Ok(v) => Ok(SpecVehicleDescriptor { label: Some(v), ..m }),
            Err(x) => Err(x),
        }
    } else if f.tag == 3 {
        match as_string(data, f.value) {
            Ok(v) => Ok(SpecVehicleDescriptor { license_plate: Some(v), ..m }),
            Err(x) => Err(x),
        }
    } else if f.tag == 4 {
        match as_varint(f.value) {
            Ok(v) => Ok(SpecVehicleDescriptor { wheelchair_accessible: Some(v as i32), ..m }),
            Err(x) => Err(x),
        }
    } else {
        Ok(m)
    }
}

pub open spec fn vehicle_descriptor_step(data: Seq<u8>, ctx: nat) -> spec_fn(SpecVehicleDescriptor, Field) -> Result<
    SpecVehicleDescriptor,
    ErrorKind,
> {
    |m: SpecVehicleDescriptor, f: Field| vehicle_descriptor_applied(data, f, m, ctx)
}

/// One occurrence of a `VehicleDescriptor`, between `s` and `e`, merged into `init`:
/// the nesting budget must be above zero, and the fields are read with one
/// less.
pub open spec fn vehicle_descriptor_merged(data: Seq<u8>, s: nat, e: nat, ctx: nat, init: SpecVehicleDescriptor) -> Result<
    SpecVehicleDescriptor,
    ErrorKind,
> {
    if ctx == 0 {
        Err(ErrorKind::RecursionLimitReached)
    } else {
        match spec_fields(data, s, e, (ctx - 1) as nat) {
            Err(x) => Err(x),
            Ok(fs) => fold_fields(fs, init, vehicle_descriptor_step(data, (ctx - 1) as nat)),
        }
    }
}

fn apply_vehicle_descriptor_field(data: &[u8], f: Field, m: &mut VehicleDescriptor, ctx: u32) -> (res: Result<
    (),
    ParseError,
>)
    requires
        value_in(f.value, data@.len()),
    ensures
        match res {
            Ok(_) => vehicle_descriptor_applied(data@, f, old(m).deep_view(), ctx as nat) == Ok::<
                SpecVehicleDescriptor,
                ErrorKind,
            >(final(m).deep_view()),
            Err(x) => vehicle_descriptor_applied(data@, f, old(m).deep_view(), ctx as nat) == Err::<
                SpecVehicleDescriptor,
                ErrorKind,
            >(x.kind()),
        },
{
    reveal(vehicle_descriptor_applied);
    if f.tag == 1 {
        match get_string(data, f.value) {
            Ok(v) => {
                m.id = Some(v);
            },
            Err(x) => {
                return Err(x);
            },
        }
    } else if f.tag == 2 {
        match get_string(data, f.value) {
            Ok(v) => {
                m.label = Some(v);
            },
            Err(x) => {
                return Err(x);
            },
        }
    } else if f.tag == 3 {
        match get_string(data, f.value) {
            Ok(v) => {
                m.license_plate = Some(v);
            },
            Err(x) => {
                return Err(x);
            },
        }
    } else if f.tag == 4 {
        match get_varint(f.value) {
            Ok(v) => {
                m.wheelchair_accessible = Some(v as i32);
            },
            Err(x) => {
                return Err(x);
            },
        }
    }
    Ok(())
}

/// Merges the `VehicleDescriptor` between `s` and `e` into `m`.
pub fn merge_vehicle_descriptor(data: &[u8], s: usize, e: usize, ctx: u32, m: &mut VehicleDescriptor) -> (res: Result<
    (),
    ParseError,
>)
    requires
        s <= e <= data@.len(),
    ensures
        match res {
            Ok(_) => vehicle_descriptor_merged(data@, s as nat, e as nat, ctx as nat, old(m).deep_view()) == Ok::<
                SpecVehicleDescriptor,
                ErrorKind,
            >(final(m).deep_view()),
            Err(x) => vehicle_descriptor_merged(data@, s as nat, e as nat, ctx as nat, old(m).deep_view()) == Err::<
                SpecVehicleDescriptor,
                ErrorKind,
            >(x.kind()),
        },
{
    if ctx == 0 {
        return Err(ParseError::RecursionLimitReached);
    }
    let _len = data.len();
    let fs = match split_fields(data, s, e, ctx - 1) {
        Ok(fs) => fs,
        Err(x) => {
            return Err(x);
        },
    };
    proof {
        lemma_fields_within(data@, s as nat, e as nat, (ctx - 1) as nat);
        assert(fs@.skip(0) =~= fs@);
    }
    let ghost init = m.deep_view();
    let mut i: usize = 0;
    while i < fs.len()
        invariant
            0 <= i <= fs@.len(),
            s <= e <= data@.len(),
            ctx > 0,
            init == old(m).deep_view(),
            fields_within(fs@, s as nat, e as nat),
            spec_fields(data@, s as nat, e as nat, (ctx - 1) as nat) == Ok::<Seq<Field>, ErrorKind>(fs@),
            fold_fields(fs@, init, vehicle_descriptor_step(data@, (ctx - 1) as nat)) == fold_fields(
                fs@.skip(i as int),
                m.deep_view(),
                vehicle_descriptor_step(data@, (ctx - 1) as nat),
            ),
        decreases fs@.len() - i,
    {
        proof {
            lemma_fold_step(fs@, i as int, init, m.deep_view(), vehicle_descriptor_step(data@, (ctx - 1) as nat));
        }
        if let Err(x) = apply_vehicle_descriptor_field(data, fs[i], m, ctx - 1) {
            return Err(x);
        }
        i += 1;
    }
    proof {
        assert(fs@.skip(fs@.len() as int) =~= Seq::<Field>::empty());
    }
    Ok(())
}

/// The effect of one field on a `Alert`; fields the schema does not know
/// are left aside.
#[verifier::opaque]
pub open spec fn alert_applied(data: Seq<u8>, f: Field, m: SpecAlert, ctx: nat) -> Result<
    SpecAlert,
    ErrorKind,
> {
    if f.tag == 1 {
        match as_range(f.value) {
            Err(x) => Err(x),
            Ok((s, e)) => match time_range_merged(data, s, e, ctx, time_range_default()) {
                Ok(n) => Ok(SpecAlert { active_period: m.active_period.push(n), ..m }),
                Err(x) => Err(x),
            },
        }
    } else if f.tag == 5 {
        match as_range(f.value) {
            Err(x) => Err(x),
            Ok((s, e)) => match entity_selector_merged(data, s, e, ctx, entity_selector_default()) {
                Ok(n) => Ok(SpecAlert { informed_entity: m.informed_entity.push(n), ..m }),
                Err(x) => Err(x),
            },
        }
    } else if f.tag == 6 {
        match as_varint(f.value) {
            Ok(v) => Ok(SpecAlert { cause: Some(v as i32), ..m }),
            Err(x) => Err(x),
        }
    } else if f.tag == 7 {
        match as_varint(f.value) {
            Ok(v) => Ok(SpecAlert { effect: Some(v as i32), ..m }),
            Err(x) => Err(x),
        }
    } else if f.tag == 8 {
        match as_range(f.value) {
            Err(x) => Err(x),
            Ok((s, e)) => match translated_string_merged(data, s, e, ctx, match m.url {
                Some(n) => n,
                None => translated_string_default(),
            }) {
                Ok(n) => Ok(SpecAlert { url: Some(n), ..m }),
                Err(x) => Err(x),
            },
        }
    } else if f.tag == 10 {
        match as_range(f.value) {
            Err(x) => Err(x),
            Ok((s, e)) => match translated_string_merged(data, s, e, ctx, match m.header_text {
                Some(n) => n,
                None => translated_string_default(),
            }) {
                Ok(n) => Ok(SpecAlert { header_text: Some(n), ..m }),
                Err(x) => Err(x),
            },
        }
    } else if f.tag == 11 {
        match as_range(f.value) {
            Err(x) => Err(x),
            Ok((s, e)) => match translated_string_merged(data, s, e, ctx, match m.description_text {
                Some(n) => n,
                None => translated_string_default(),
            }) {
                Ok(n) => Ok(SpecAlert { description_text: Some(n), ..m }),
                Err(x) => Err(x),
            },
        }
    } else if f.tag == 12 {
        match as_range(f.value) {
            Err(x) => Err(x),
            Ok((s, e)) => match translated_string_merged(data, s, e, ctx, match m.tts_header_text {
                Some(n) => n,
                None => translated_string_default(),
            }) {
                Ok(n) => Ok(SpecAlert { tts_header_text: Some(n), ..m }),
                Err(x) => Err(x),
            },
        }
    } else if f.tag == 13 {
        match as_range(f.value) {
            Err(x) => Err(x),
            Ok((s, e)) => match translated_string_merged(data, s, e, ctx, match m.tts_description_text {
                Some(n) => n,
                None => translated_string_default(),
            }) {
                Ok(n) => Ok(SpecAlert { tts_description_text: Some(n), ..m }),
                Err(x) => Err(x),
            },
        }
    } else if f.tag == 14 {
        match as_varint(f.value) {
            Ok(v) => Ok(SpecAlert { severity_level: Some(v as i32), ..m }),
            Err(x) => Err(x),
        }
    } else if f.tag == 15 {
        match as_range(f.value) {
            Err(x) => Err(x),
            Ok((s, e)) => match raw_merged(data, RawKind::TranslatedImage, s, e, ctx, match m.image {
                Some(n) => n,
                None => Seq::empty(),
            }) {
                Ok(n) => Ok(SpecAlert { image: Some(n), ..m }),
                Err(x) => Err(x),
            },
        }
    } else if f.tag == 16 {
        match as_range(f.value) {
            Err(x) => Err(x),
            Ok((s, e)) => match translated_string_merged(data, s, e, ctx, match m.image_alternative_text {
                Some(n) => n,
                None => translated_string_default(),
            }) {
                Ok(n) => Ok(SpecAlert { image_alternative_text: Some(n), ..m }),
                Err(x) => Err(x),
            },
        }
    } else if f.tag == 17 {
        match as_range(f.value) {
            Err(x) => Err(x),
            Ok((s, e)) => match translated_string_merged(data, s, e, ctx, match m.cause_detail {
                Some(n) => n,
                None => translated_string_default(),
            }) {
                Ok(n) => Ok(SpecAlert { cause_detail: Some(n), ..m }),
                Err(x) => Err(x),
            },
        }
    } else if f.tag == 18 {
        match as_range(f.value) {
            Err(x) => Err(x),
            Ok((s, e)) => match translated_string_merged(data, s, e, ctx, match m.effect_detail {
                Some(n) => n,
                None => translated_string_default(),
            }) {
                Ok(n) => Ok(SpecAlert { effect_detail: Some(n), ..m }),
                Err(x) => Err(x),
            },
        }
    } else {
        Ok(m)
    }
}

pub open spec fn alert_step(data: Seq<u8>, ctx: nat) -> spec_fn(SpecAlert, Field) -> Result<
    SpecAlert,
    ErrorKind,
> {
    |m: SpecAlert, f: Field| alert_applied(data, f, m, ctx)
}

/// One occurrence of a `Alert`, between `s` and `e`, merged into `init`:
/// the nesting budget must be above zero, and the fields are read with one
/// less.
pub open spec fn alert_merged(data: Seq<u8>, s: nat, e: nat, ctx: nat, init: SpecAlert) -> Result<
    SpecAlert,
    ErrorKind,
> {
    if ctx == 0 {
        Err(ErrorKind::RecursionLimitReached)
    } else {
        match spec_fields(data, s, e, (ctx - 1) as nat) {
            Err(x) => Err(x),
            Ok(fs) => fold_fields(fs, init, alert_step(data, (ctx - 1) as nat)),
        }
    }
}

fn apply_alert_field(data: &[u8], f: Field, m: &mut Alert, ctx: u32) -> (res: Result<
    (),
    ParseError,
>)
    requires
        value_in(f.value, data@.len()),
    ensures
        match res {
            Ok(_) => alert_applied(data@, f, old(m).deep_view(), ctx as nat) == Ok::<
                SpecAlert,
                ErrorKind,
            >(final(m).deep_view()),
            Err(x) => alert_applied(data@, f, old(m).deep_view(), ctx as nat) == Err::<
                SpecAlert,
                ErrorKind,
            >(x.kind()),
        },
{
    reveal(alert_applied);
    if f.tag == 1 {
        let (s, e) = match get_range(f.value) {
            Ok(r) => r,
            Err(x) => {
                return Err(x);
            },
        };
        let mut sub = TimeRange::new();
        if let Err(x) = merge_time_range(data, s, e, ctx, &mut sub) {
            return Err(x);
        }
        let ghost before = m.active_period.deep_view();
        let ghost sv = sub.deep_view();
        m.active_period.push(sub);
        assert(m.active_period.deep_view() =~= before.push(sv));
    } else if f.tag == 5 {
        let (s, e) = match get_range(f.value) {
            Ok(r) => r,
            Err(x) => {
                return Err(x);
            },
        };
        let mut sub = EntitySelector::new();
        if let Err(x) = merge_entity_selector(data, s, e, ctx, &mut sub) {
            return Err(x);
        }
        let ghost before = m.informed_entity.deep_view();
        let ghost sv = sub.deep_view();
        m.informed_entity.push(sub);
        assert(m.informed_entity.deep_view() =~= before.push(sv));
    } else if f.tag == 6 {
        match get_varint(f.value) {
            Ok(v) => {
                m.cause = Some(v as i32);
            },
            Err(x) => {
                return Err(x);
            },
        }
    } else if f.tag == 7 {
        match get_varint(f.value) {
            Ok(v) => {
                m.effect = Some(v as i32);
            },
            Err(x) => {
                return Err(x);
            },
        }
    } else if f.tag == 8 {
        let (s, e) = match get_range(f.value) {
            Ok(r) => r,
            Err(x) => {
                return Err(x);
            },
        };
        let mut sub = match m.url.take() {
            Some(n) => n,
            None => TranslatedString::new(),
        };
        if let Err(x) = merge_translated_string(data, s, e, ctx, &mut sub) {
            return Err(x);
        }
        m.url = Some(sub);
    } else if f.tag == 10 {
        let (s, e) = match get_range(f.value) {
            Ok(r) => r,
            Err(x) => {
                return Err(x);
            },
        };
        let mut sub = match m.header_text.take() {
            Some(n) => n,
            None => TranslatedString::new(),
        };
        if let Err(x) = merge_translated_string(data, s, e, ctx, &mut sub) {
            return Err(x);
        }
        m.header_text = Some(sub);
    } else if f.tag == 11 {
        let (s, e) = match get_range(f.value) {
            Ok(r) => r,
            Err(x) => {
                return Err(x);
            },
        };
        let mut sub = match m.description_text.take() {
            Some(n) => n,
            None => TranslatedString::new(),
        };
        if let Err(x) = merge_translated_string(data, s, e, ctx, &mut sub) {
            return Err(x);
        }
        m.description_text = Some(sub);
    } else if f.tag == 12 {
        let (s, e) = match get_range(f.value) {
            Ok(r) => r,
            Err(x) => {
                return Err(x);
            },
        };
        let mut sub = match m.tts_header_text.take() {
            Some(n) => n,
            None => TranslatedString::new(),
        };
        if let Err(x) = merge_translated_string(data, s, e, ctx, &mut sub) {
            return Err(x);
        }
        m.tts_header_text = Some(sub);
    } else if f.tag == 13 {
        let (s, e) = match get_range(f.value) {
            Ok(r) => r,
            Err(x) => {
                return Err(x);
            },
        };
        let mut sub = match m.tts_description_text.take() {
            Some(n) => n,
            None => TranslatedString::new(),
        };
        if let Err(x) = merge_translated_string(data, s, e, ctx, &mut sub) {
            return Err(x);
        }
        m.tts_description_text = Some(sub);
    } else if f.tag == 14 {
        match get_varint(f.value) {
            Ok(v) => {
                m.severity_level = Some(v as i32);
            },
            Err(x) => {
                return Err(x);
            },
        }
    } else if f.tag == 15 {
        let (s, e) = match get_range(f.value) {
            Ok(r) => r,
            Err(x) => {
                return Err(x);
            },
        };
        let mut sub = match m.image.take() {
            Some(n) => n,
            None => RawMessage::new(),
        };
        if let Err(x) = merge_raw(data, RawKind::TranslatedImage, s, e, ctx, &mut sub) {
            return Err(x);
        }
        m.image = Some(sub);
    } else if f.tag == 16 {
        let (s, e) = match get_range(f.value) {
            Ok(r) => r,
            Err(x) => {
                return Err(x);
            },
        };
        let mut sub = match m.image_alternative_text.take() {
            Some(n) => n,
            None => TranslatedString::new(),
        };
        if let Err(x) = merge_translated_string(data, s, e, ctx, &mut sub) {
            return Err(x);
        }
        m.image_alternative_text = Some(sub);
    } else if f.tag == 17 {
        let (s, e) = match get_range(f.value) {
            Ok(r) => r,
            Err(x) => {
                return Err(x);
            },
        };
        let mut sub = match m.cause_detail.take() {
            Some(n) => n,
            None => TranslatedString::new(),
        };
        if let Err(x) = merge_translated_string(data, s, e, ctx, &mut sub) {
            return Err(x);
        }
        m.cause_detail = Some(sub);
    } else if f.tag == 18 {
        let (s, e) = match get_range(f.value) {
            Ok(r) => r,
            Err(x) => {
                return Err(x);
            },
        };
        let mut sub = match m.effect_detail.take() {
            Some(n) => n,
            None => TranslatedString::new(),
        };
        if let Err(x) = merge_translated_string(data, s, e, ctx, &mut sub) {
            return Err(x);
        }
        m.effect_detail = Some(sub);
    }
    Ok(())
}

/// Merges the `Alert` between `s` and `e` into `m`.
pub fn merge_alert(data: &[u8], s: usize, e: usize, ctx: u32, m: &mut Alert) -> (res: Result<
    (),
    ParseError,
>)
    requires
        s <= e <= data@.len(),
    ensures
        match res {
            Ok(_) => alert_merged(data@, s as nat, e as nat, ctx as nat, old(m).deep_view()) == Ok::<
                SpecAlert,
                ErrorKind,
            >(final(m).deep_view()),
            Err(x) => alert_merged(data@, s as nat, e as nat, ctx as nat, old(m).deep_view()) == Err::<
                SpecAlert,
                ErrorKind,
            >(x.kind()),
        },
{
    if ctx == 0 {
        return Err(ParseError::RecursionLimitReached);
    }
    let _len = data.len();
    let fs = match split_fields(data, s, e, ctx - 1) {
        Ok(fs) => fs,
        Err(x) => {
            return Err(x);
        },
    };
    proof {
        lemma_fields_within(data@, s as nat, e as nat, (ctx - 1) as nat);
        assert(fs@.skip(0) =~= fs@);
    }
    let ghost init = m.deep_view();
    let mut i: usize = 0;
    while i < fs.len()
        invariant
            0 <= i <= fs@.len(),
            s <= e <= data@.len(),
            ctx > 0,
            init == old(m).deep_view(),
            fields_within(fs@, s as nat, e as nat),
            spec_fields(data@, s as nat, e as nat, (ctx - 1) as nat) == Ok::<Seq<Field>, ErrorKind>(fs@),
            fold_fields(fs@, init, alert_step(data@, (ctx - 1) as nat)) == fold_fields(
                fs@.skip(i as int),
                m.deep_view(),
                alert_step(data@, (ctx - 1) as nat),
            ),
        decreases fs@.len() - i,
    {
        proof {
            lemma_fold_step(fs@, i as int, init, m.deep_view(), alert_step(data@, (ctx - 1) as nat));
        }
        if let Err(x) = apply_alert_field(data, fs[i], m, ctx - 1) {
            return Err(x);
        }
        i += 1;
    }
    proof {
        assert(fs@.skip(fs@.len() as int) =~= Seq::<Field>::empty());
    }
    Ok(())
}

/// The effect of one field on a `TimeRange`; fields the schema does not know
/// are left aside.
#[verifier::opaque]
pub open spec fn time_range_applied(data: Seq<u8>, f: Field, m: SpecTimeRange, ctx: nat) -> Result<
    SpecTimeRange,
    ErrorKind,
> {
    if f.tag == 1 {
        match as_varint(f.value) {
            Ok(v) => Ok(SpecTimeRange { start: Some(v), ..m }),
            Err(x) => Err(x),
        }
    } else if f.tag == 2 {
        match as_varint(f.value) {
            Ok(v) => Ok(SpecTimeRange { end: Some(v), ..m }),
            Err(x) => Err(x),
        }
    } else {
        Ok(m)
    }
}

pub open spec fn time_range_step(data: Seq<u8>, ctx: nat) -> spec_fn(SpecTimeRange, Field) -> Result<
    SpecTimeRange,
    ErrorKind,
> {
    |m: SpecTimeRange, f: Field| time_range_applied(data, f, m, ctx)
}

/// One occurrence of a `TimeRange`, between `s` and `e`, merged into `init`:
/// the nesting budget must be above zero, and the fields are read with one
/// less.
pub open spec fn time_range_merged(data: Seq<u8>, s: nat, e: nat, ctx: nat, init: SpecTimeRange) -> Result<
    SpecTimeRange,
    ErrorKind,
> {
    if ctx == 0 {
        Err(ErrorKind::RecursionLimitReached)
    } else {
        match spec_fields(data, s, e, (ctx - 1) as nat) {
            Err(x) => Err(x),
            Ok(fs) => fold_fields(fs, init, time_range_step(data, (ctx - 1) as nat)),
        }
    }
}

fn apply_time_range_field(data: &[u8], f: Field, m: &mut TimeRange, ctx: u32) -> (res: Result<
    (),
    ParseError,
>)
    requires
        value_in(f.value, data@.len()),
    ensures
        match res {
            Ok(_) => time_range_applied(data@, f, old(m).deep_view(), ctx as nat) == Ok::<
                SpecTimeRange,
                ErrorKind,
            >(final(m).deep_view()),
            Err(x) => time_range_applied(data@, f, old(m).deep_view(), ctx as nat) == Err::<
                SpecTimeRange,
                ErrorKind,
            >(x.kind()),
        },
{
    reveal(time_range_applied);
    if f.tag == 1 {
        match get_varint(f.value) {
            Ok(v) => {
                m.start = Some(v);
            },
            Err(x) => {
                return Err(x);
            },
        }
    } else if f.tag == 2 {
        match get_varint(f.value) {
            Ok(v) => {
                m.end = Some(v);
            },
            Err(x) => {
                return Err(x);
            },
        }
    }
    Ok(())
}

/// Merges the `TimeRange` between `s` and `e` into `m`.
pub fn merge_time_range(data: &[u8], s: usize, e: usize, ctx: u32, m: &mut TimeRange) -> (res: Result<
    (),
    ParseError,
>)
    requires
        s <= e <= data@.len(),
    ensures
        match res {
            Ok(_) => time_range_merged(data@, s as nat, e as nat, ctx as nat, old(m).deep_view()) == Ok::<
                SpecTimeRange,
                ErrorKind,
            >(final(m).deep_view()),
            Err(x) => time_range_merged(data@, s as nat, e as nat, ctx as nat, old(m).deep_view()) == Err::<
                SpecTimeRange,
                ErrorKind,
            >(x.kind()),
        },
{
    if ctx == 0 {
        return Err(ParseError::RecursionLimitReached);
    }
    let _len = data.len();
    let fs = match split_fields(data, s, e, ctx - 1) {
        Ok(fs) => fs,
        Err(x) => {
            return Err(x);
        },
    };
    proof {
        lemma_fields_within(data@, s as nat, e as nat, (ctx - 1) as nat);
        assert(fs@.skip(0) =~= fs@);
    }
    let ghost init = m.deep_view();
    let mut i: usize = 0;
    while i < fs.len()
        invariant
            0 <= i <= fs@.len(),
            s <= e <= data@.len(),
            ctx > 0,
            init == old(m).deep_view(),
            fields_within(fs@, s as nat, e as nat),
            spec_fields(data@, s as nat, e as nat, (ctx - 1) as nat) == Ok::<Seq<Field>, ErrorKind>(fs@),
            fold_fields(fs@, init, time_range_step(data@, (ctx - 1) as nat)) == fold_fields(
                fs@.skip(i as int),
                m.deep_view(),
                time_range_step(data@, (ctx - 1) as nat),
            ),
        decreases fs@.len() - i,
    {
        proof {
            lemma_fold_step(fs@, i as int, init, m.deep_view(), time_range_step(data@, (ctx - 1) as nat));
        }
        if let Err(x) = apply_time_range_field(data, fs[i], m, ctx - 1) {
            return Err(x);
        }
        i += 1;
    }
    proof {
        assert(fs@.skip(fs@.len() as int) =~= Seq::<Field>::empty());
    }
    Ok(())
}

/// The effect of one field on a `EntitySelector`; fields the schema does not know
/// are left aside.
#[verifier::opaque]
pub open spec fn entity_selector_applied(data: Seq<u8>, f: Field, m: SpecEntitySelector, ctx: nat) -> Result<
    SpecEntitySelector,
    ErrorKind,
> {
    if f.tag == 1 {
        match as_string(data, f.value) {
            Ok(v) => Ok(SpecEntitySelector { agency_id: Some(v), ..m }),
            Err(x) => Err(x),
        }
    } else if f.tag == 2 {
        match as_string(data, f.value) {
            Ok(v) => Ok(SpecEntitySelector { route_id: Some(v), ..m }),
            Err(x) => Err(x),
        }
    } else if f.tag == 3 {
        match as_varint(f.value) {
            Ok(v) => Ok(SpecEntitySelector { route_type: Some(v as i32), ..m }),
            Err(x) => Err(x),
        }
    } else if f.tag == 4 {
        match as_range(f.value) {
            Err(x) => Err(x),
            Ok((s, e)) => match trip_descriptor_merged(data, s, e, ctx, match m.trip {
                Some(n) => n,
                None => trip_descriptor_default(),
            }) {
                Ok(n) => Ok(SpecEntitySelector { trip: Some(n), ..m }),
                Err(x) => Err(x),
            },
        }
    } else if f.tag == 5 {
        match as_string(data, f.value) {
            Ok(v) => Ok(SpecEntitySelector { stop_id: Some(v), ..m }),
            Err(x) => Err(x),
        }
    } else if f.tag == 6 {
        match as_varint(f.value) {
            Ok(v) => Ok(SpecEntitySelector { direction_id: Some(v as u32), ..m }),
            Err(x) => Err(x),
        }
    } else {
        Ok(m)
    }
}

pub open spec fn entity_selector_step(data: Seq<u8>, ctx: nat) -> spec_fn(SpecEntitySelector, Field) -> Result<
    SpecEntitySelector,
    ErrorKind,
> {
    |m: SpecEntitySelector, f: Field| entity_selector_applied(data, f, m, ctx)
}

/// One occurrence of a `EntitySelector`, between `s` and `e`, merged into `init`:
/// the nesting budget must be above zero, and the fields are read with one
/// less.
pub open spec fn entity_selector_merged(data: Seq<u8>, s: nat, e: nat, ctx: nat, init: SpecEntitySelector) -> Result<
    SpecEntitySelector,
    ErrorKind,
> {
    if ctx == 0 {
        Err(ErrorKind::RecursionLimitReached)
    } else {
        match spec_fields(data, s, e, (ctx - 1) as nat) {
            Err(x) => Err(x),
            Ok(fs) => fold_fields(fs, init, entity_selector_step(data, (ctx - 1) as nat)),
        }
    }
}

fn apply_entity_selector_field(data: &[u8], f: Field, m: &mut EntitySelector, ctx: u32) -> (res: Result<
    (),
    ParseError,
>)
    requires
        value_in(f.value, data@.len()),
    ensures
        match res {
            Ok(_) => entity_selector_applied(data@, f, old(m).deep_view(), ctx as nat) == Ok::<
                SpecEntitySelector,
                ErrorKind,
            >(final(m).deep_view()),
            Err(x) => entity_selector_applied(data@, f, old(m).deep_view(), ctx as nat) == Err::<
                SpecEntitySelector,
                ErrorKind,
            >(x.kind()),
        },
{
    reveal(entity_selector_applied);
    if f.tag == 1 {
        match get_string(data, f.value) {
            Ok(v) => {
                m.agency_id = Some(v);
            },
            Err(x) => {
                return Err(x);
            },
        }
    } else if f.tag == 2 {
        match get_string(data, f.value) {
            Ok(v) => {
                m.route_id = Some(v);
            },
            Err(x) => {
                return Err(x);
            },
        }
    } else if f.tag == 3 {
        match get_varint(f.value) {
            Ok(v) => {
                m.route_type = Some(v as i32);
            },
            Err(x) => {
                return Err(x);
            },
        }
    } else if f.tag == 4 {
        let (s, e) = match get_range(f.value) {
            Ok(r) => r,
            Err(x) => {
                return Err(x);
            },
        };
        let mut sub = match m.trip.take() {
            Some(n) => n,
            None => TripDescriptor::new(),
        };
        if let Err(x) = merge_trip_descriptor(data, s, e, ctx, &mut sub) {
            return Err(x);
        }
        m.trip = Some(sub);
    } else if f.tag == 5 {
        match get_string(data, f.value) {
            Ok(v) => {
                m.stop_id = Some(v);
            },
            Err(x) => {
                return Err(x);
            },
        }
    } else if f.tag == 6 {
        match get_varint(f.value) {
            Ok(v) => {
                m.direction_id = Some(v as u32);
            },
            Err(x) => {
                return Err(x);
            },
        }
    }
    Ok(())
}

/// Merges the `EntitySelector` between `s` and `e` into `m`.
pub fn merge_entity_selector(data: &[u8], s: usize, e: usize, ctx: u32, m: &mut EntitySelector) -> (res: Result<
    (),
    ParseError,
>)
    requires
        s <= e <= data@.len(),
    ensures
        match res {
            Ok(_) => entity_selector_merged(data@, s as nat, e as nat, ctx as nat, old(m).deep_view()) == Ok::<
                SpecEntitySelector,
                ErrorKind,
            >(final(m).deep_view()),
            Err(x) => entity_selector_merged(data@, s as nat, e as nat, ctx as nat, old(m).deep_view()) == Err::<
                SpecEntitySelector,
                ErrorKind,
            >(x.kind()),
        },
{
    if ctx == 0 {
        return Err(ParseError::RecursionLimitReached);
    }
    let _len = data.len();
    let fs = match split_fields(data, s, e, ctx - 1) {
        Ok(fs) => fs,
        Err(x) => {
            return Err(x);
        },
    };
    proof {
        lemma_fields_within(data@, s as nat, e as nat, (ctx - 1) as nat);
        assert(fs@.skip(0) =~= fs@);
    }
    let ghost init = m.deep_view();
    let mut i: usize = 0;
    while i < fs.len()
        invariant
            0 <= i <= fs@.len(),
            s <= e <= data@.len(),
            ctx > 0,
            init == old(m).deep_view(),
            fields_within(fs@, s as nat, e as nat),
            spec_fields(data@, s as nat, e as nat, (ctx - 1) as nat) == Ok::<Seq<Field>, ErrorKind>(fs@),
            fold_fields(fs@, init, entity_selector_step(data@, (ctx - 1) as nat)) == fold_fields(
                fs@.skip(i as int),
                m.deep_view(),
                entity_selector_step(data@, (ctx - 1) as nat),
            ),
        decreases fs@.len() - i,
    {
        proof {
            lemma_fold_step(fs@, i as int, init, m.deep_view(), entity_selector_step(data@, (ctx - 1) as nat));
        }
        if let Err(x) = apply_entity_selector_field(data, fs[i], m, ctx - 1) {
            return Err(x);
        }
        i += 1;
    }
    proof {
        assert(fs@.skip(fs@.len() as int) =~= Seq::<Field>::empty());
    }
    Ok(())
}

/// The effect of one field on a `TranslatedString`; fields the schema does not know
/// are left aside.
#[verifier::opaque]
pub open spec fn translated_string_applied(data: Seq<u8>, f: Field, m: SpecTranslatedString, ctx: nat) -> Result<
    SpecTranslatedString,
    ErrorKind,
> {
    if f.tag == 1 {
        match as_range(f.value) {
            Err(x) => Err(x),
            Ok((s, e)) => match translation_merged(data, s, e, ctx, translation_default()) {
                Ok(n) => Ok(SpecTranslatedString { translation: m.translation.push(n), ..m }),
                Err(x) => Err(x),
            },
        }
    } else {
        Ok(m)
    }
}

pub open spec fn translated_string_step(data: Seq<u8>, ctx: nat) -> spec_fn(SpecTranslatedString, Field) -> Result<
    SpecTranslatedString,
    ErrorKind,
> {
    |m: SpecTranslatedString, f: Field| translated_string_applied(data, f, m, ctx)
}

/// One occurrence of a `TranslatedString`, between `s` and `e`, merged into `init`:
/// the nesting budget must be above zero, and the fields are read with one
/// less.
pub open spec fn translated_string_merged(data: Seq<u8>, s: nat, e: nat, ctx: nat, init: SpecTranslatedString) -> Result<
    SpecTranslatedString,
    ErrorKind,
> {
    if ctx == 0 {
        Err(ErrorKind::RecursionLimitReached)
    } else {
        match spec_fields(data, s, e, (ctx - 1) as nat) {
            Err(x) => Err(x),
            Ok(fs) => fold_fields(fs, init, translated_string_step(data, (ctx - 1) as nat)),
        }
    }
}

fn apply_translated_string_field(data: &[u8], f: Field, m: &mut TranslatedString, ctx: u32) -> (res: Result<
    (),
    ParseError,
>)
    requires
        value_in(f.value, data@.len()),
    ensures
        match res {
            Ok(_) => translated_string_applied(data@, f, old(m).deep_view(), ctx as nat) == Ok::<
                SpecTranslatedString,
                ErrorKind,
            >(final(m).deep_view()),
            Err(x) => translated_string_applied(data@, f, old(m).deep_view(), ctx as nat) == Err::<
                SpecTranslatedString,
                ErrorKind,
            >(x.kind()),
        },
{
    reveal(translated_string_applied);
    if f.tag == 1 {
        let (s, e) = match get_range(f.value) {
            Ok(r) => r,
            Err(x) => {
                return Err(x);
            },
        };
        let mut sub = Translation::new();
        if let Err(x) = merge_translation(data, s, e, ctx, &mut sub) {
            return Err(x);
        }
        let ghost before = m.translation.deep_view();
        let ghost sv = sub.deep_view();
        m.translation.push(sub);
        assert(m.translation.deep_view() =~= before.push(sv));
    }
    Ok(())
}

/// Merges the `TranslatedString` between `s` and `e` into `m`.
pub fn merge_translated_string(data: &[u8], s: usize, e: usize, ctx: u32, m: &mut TranslatedString) -> (res: Result<
    (),
    ParseError,
>)
    requires
        s <= e <= data@.len(),
    ensures
        match res {
            Ok(_) => translated_string_merged(data@, s as nat, e as nat, ctx as nat, old(m).deep_view()) == Ok::<
                SpecTranslatedString,
                ErrorKind,
            >(final(m).deep_view()),
            Err(x) => translated_string_merged(data@, s as nat, e as nat, ctx as nat, old(m).deep_view()) == Err::<
                SpecTranslatedString,
                ErrorKind,
            >(x.kind()),
        },
{
    if ctx == 0 {
        return Err(ParseError::RecursionLimitReached);
    }
    let _len = data.len();
    let fs = match split_fields(data, s, e, ctx - 1) {
        Ok(fs) => fs,
        Err(x) => {
            return Err(x);
        },
    };
    proof {
        lemma_fields_within(data@, s as nat, e as nat, (ctx - 1) as nat);
        assert(fs@.skip(0) =~= fs@);
    }
    let ghost init = m.deep_view();
    let mut i: usize = 0;
    while i < fs.len()
        invariant
            0 <= i <= fs@.len(),
            s <= e <= data@.len(),
            ctx > 0,
            init == old(m).deep_view(),
            fields_within(fs@, s as nat, e as nat),
            spec_fields(data@, s as nat, e as nat, (ctx - 1) as nat) == Ok::<Seq<Field>, ErrorKind>(fs@),
            fold_fields(fs@, init, translated_string_step(data@, (ctx - 1) as nat)) == fold_fields(
                fs@.skip(i as int),
                m.deep_view(),
                translated_string_step(data@, (ctx - 1) as nat),
            ),
        decreases fs@.len() - i,
    {
        proof {
            lemma_fold_step(fs@, i as int, init, m.deep_view(), translated_string_step(data@, (ctx - 1) as nat));
        }
        if let Err(x) = apply_translated_string_field(data, fs[i], m, ctx - 1) {
            return Err(x);
        }
        i += 1;
    }
    proof {
        assert(fs@.skip(fs@.len() as int) =~= Seq::<Field>::empty());
    }
    Ok(())
}

/// The effect of one field on a `Translation`; fields the schema does not know
/// are left aside.
#[verifier::opaque]
pub open spec fn translation_applied(data: Seq<u8>, f: Field, m: SpecTranslation, ctx: nat) -> Result<
    SpecTranslation,
    ErrorKind,
> {
    if f.tag == 1 {
        match as_string(data, f.value) {
            Ok(v) => Ok(SpecTranslation { text: v, ..m }),
            Err(x) => Err(x),
        }
    } else if f.tag == 2 {
        match as_string(data, f.value) {
            Ok(v) => Ok(SpecTranslation { language: Some(v), ..m }),
            Err(x) => Err(x),
        }
    } else {
        Ok(m)
    }
}

pub open spec fn translation_step(data: Seq<u8>, ctx: nat) -> spec_fn(SpecTranslation, Field) -> Result<
    SpecTranslation,
    ErrorKind,
> {
    |m: SpecTranslation, f: Field| translation_applied(data, f, m, ctx)
}

/// One occurrence of a `Translation`, between `s` and `e`, merged into `init`:
/// the nesting budget must be above zero, and the fields are read with one
/// less.
pub open spec fn translation_merged(data: Seq<u8>, s: nat, e: nat, ctx: nat, init: SpecTranslation) -> Result<
    SpecTranslation,
    ErrorKind,
> {
    if ctx == 0 {
        Err(ErrorKind::RecursionLimitReached)
    } else {
        match spec_fields(data, s, e, (ctx - 1) as nat) {
            Err(x) => Err(x),
            Ok(fs) => fold_fields(fs, init, translation_step(data, (ctx - 1) as nat)),
        }
    }
}

fn apply_translation_field(data: &[u8], f: Field, m: &mut Translation, ctx: u32) -> (res: Result<
    (),
    ParseError,
>)
    requires
        value_in(f.value, data@.len()),
    ensures
        match res {
            Ok(_) => translation_applied(data@, f, old(m).deep_view(), ctx as nat) == Ok::<
                SpecTranslation,
                ErrorKind,
            >(final(m).deep_view()),
            Err(x) => translation_applied(data@, f, old(m).deep_view(), ctx as nat) == Err::<
                SpecTranslation,
                ErrorKind,
            >(x.kind()),
        },
{
    reveal(translation_applied);
    if f.tag == 1 {
        match get_string(data, f.value) {
            Ok(v) => {
                m.text = v;
            },
            Err(x) => {
                return Err(x);
            },
        }
    } else if f.tag == 2 {
        match get_string(data, f.value) {
            Ok(v) => {
                m.language = Some(v);
            },
            Err(x) => {
                return Err(x);
            },
        }
    }
    Ok(())
}

/// Merges the `Translation` between `s` and `e` into `m`.
pub fn merge_translation(data: &[u8], s: usize, e: usize, ctx: u32, m: &mut Translation) -> (res: Result<
    (),
    ParseError,
>)
    requires
        s <= e <= data@.len(),
    ensures
        match res {
            Ok(_) => translation_merged(data@, s as nat, e as nat, ctx as nat, old(m).deep_view()) == Ok::<
                SpecTranslation,
                ErrorKind,
            >(final(m).deep_view()),
            Err(x) => translation_merged(data@, s as nat, e as nat, ctx as nat, old(m).deep_view()) == Err::<
                SpecTranslation,
                ErrorKind,
            >(x.kind()),
        },
{
    if ctx == 0 {
        return Err(ParseError::RecursionLimitReached);
    }
    let _len = data.len();
    let fs = match split_fields(data, s, e, ctx - 1) {
        Ok(fs) => fs,
        Err(x) => {
            return Err(x);
        },
    };
    proof {
        lemma_fields_within(data@, s as nat, e as nat, (ctx - 1) as nat);
        assert(fs@.skip(0) =~= fs@);
    }
    let ghost init = m.deep_view();
    let mut i: usize = 0;
    while i < fs.len()
        invariant
            0 <= i <= fs@.len(),
            s <= e <= data@.len(),
            ctx > 0,
            init == old(m).deep_view(),
            fields_within(fs@, s as nat, e as nat),
            spec_fields(data@, s as nat, e as nat, (ctx - 1) as nat) == Ok::<Seq<Field>, ErrorKind>(fs@),
            fold_fields(fs@, init, translation_step(data@, (ctx - 1) as nat)) == fold_fields(
                fs@.skip(i as int),
                m.deep_view(),
                translation_step(data@, (ctx - 1) as nat),
            ),
        decreases fs@.len() - i,
    {
        proof {
            lemma_fold_step(fs@, i as int, init, m.deep_view(), translation_step(data@, (ctx - 1) as nat));
        }
        if let Err(x) = apply_translation_field(data, fs[i], m, ctx - 1) {
            return Err(x);
        }
        i += 1;
    }
    proof {
        assert(fs@.skip(fs@.len() as int) =~= Seq::<Field>::empty());
    }
    Ok(())
}

/// The effect of one field on a `TripModifications`; fields the schema does not know
/// are left aside.
#[verifier::opaque]
pub open spec fn trip_modifications_applied(data: Seq<u8>, f: Field, m: SpecTripModifications, ctx: nat) -> Result<
    SpecTripModifications,
    ErrorKind,
> {
    if f.tag == 1 {
        match as_range(f.value) {
            Err(x) => Err(x),
            Ok((s, e)) => match selected_trips_merged(data, s, e, ctx, selected_trips_default()) {
                Ok(n) => Ok(SpecTripModifications { selected_trips: m.selected_trips.push(n), ..m }),
                Err(x) => Err(x),
            },
        }
    } else if f.tag == 2 {
        match as_string(data, f.value) {
            Ok(v) => Ok(SpecTripModifications { start_times: m.start_times.push(v), ..m }),
            Err(x) => Err(x),
        }
    } else if f.tag == 3 {
        match as_string(data, f.value) {
            Ok(v) => Ok(SpecTripModifications { service_dates: m.service_dates.push(v), ..m }),
            Err(x) => Err(x),
        }
    } else if f.tag == 4 {
        match as_range(f.value) {
            Err(x) => Err(x),
            Ok((s, e)) => match modification_merged(data, s, e, ctx, modification_default()) {
                Ok(n) => Ok(SpecTripModifications { modifications: m.modifications.push(n), ..m }),
                Err(x) => Err(x),
            },
        }
    } else {
        Ok(m)
    }
}

pub open spec fn trip_modifications_step(data: Seq<u8>, ctx: nat) -> spec_fn(SpecTripModifications, Field) -> Result<
    SpecTripModifications,
    ErrorKind,
> {
    |m: SpecTripModifications, f: Field| trip_modifications_applied(data, f, m, ctx)
}

/// One occurrence of a `TripModifications`, between `s` and `e`, merged into `init`:
/// the nesting budget must be above zero, and the fields are read with one
/// less.
pub open spec fn trip_modifications_merged(data: Seq<u8>, s: nat, e: nat, ctx: nat, init: SpecTripModifications) -> Result<
    SpecTripModifications,
    ErrorKind,
> {
    if ctx == 0 {
        Err(ErrorKind::RecursionLimitReached)
    } else {
        match spec_fields(data, s, e, (ctx - 1) as nat) {
            Err(x) => Err(x),
            Ok(fs) => fold_fields(fs, init, trip_modifications_step(data, (ctx - 1) as nat)),
        }
    }
}

fn apply_trip_modifications_field(data: &[u8], f: Field, m: &mut TripModifications, ctx: u32) -> (res: Result<
    (),
    ParseError,
>)
    requires
        value_in(f.value, data@.len()),
    ensures
        match res {
            Ok(_) => trip_modifications_applied(data@, f, old(m).deep_view(), ctx as nat) == Ok::<
                SpecTripModifications,
                ErrorKind,
            >(final(m).deep_view()),
            Err(x) => trip_modifications_applied(data@, f, old(m).deep_view(), ctx as nat) == Err::<
                SpecTripModifications,
                ErrorKind,
            >(x.kind()),
        },
{
    reveal(trip_modifications_applied);
    if f.tag == 1 {
        let (s, e) = match get_range(f.value) {
            Ok(r) => r,
            Err(x) => {
                return Err(x);
            },
        };
        let mut sub = SelectedTrips::new();
        if let Err(x) = merge_selected_trips(data, s, e, ctx, &mut sub) {
            return Err(x);
        }
        let ghost before = m.selected_trips.deep_view();
        let ghost sv = sub.deep_view();
        m.selected_trips.push(sub);
        assert(m.selected_trips.deep_view() =~= before.push(sv));
    } else if f.tag == 2 {
        match get_string(data, f.value) {
            Ok(v) => {
                let ghost before = m.start_times.deep_view();
                let ghost vv = v@;
                m.start_times.push(v);
                assert(m.start_times.deep_view() =~= before.push(vv));
            },
            Err(x) => {
                return Err(x);
            },
        }
    } else if f.tag == 3 {
        match get_string(data, f.value) {
            Ok(v) => {
                let ghost before = m.service_dates.deep_view();
                let ghost vv = v@;
                m.service_dates.push(v);
                assert(m.service_dates.deep_view() =~= before.push(vv));
            },
            Err(x) => {
                return Err(x);
            },
        }
    } else if f.tag == 4 {
        let (s, e) = match get_range(f.value) {
            Ok(r) => r,
            Err(x) => {
                return Err(x);
            },
        };
        let mut sub = Modification::new();
        if let Err(x) = merge_modification(data, s, e, ctx, &mut sub) {
            return Err(x);
        }
        let ghost before = m.modifications.deep_view();
        let ghost sv = sub.deep_view();
        m.modifications.push(sub);
        assert(m.modifications.deep_view() =~= before.push(sv));
    }
    Ok(())
}

/// Merges the `TripModifications` between `s` and `e` into `m`.
pub fn merge_trip_modifications(data: &[u8], s: usize, e: usize, ctx: u32, m: &mut TripModifications) -> (res: Result<
    (),
    ParseError,
>)
    requires
        s <= e <= data@.len(),
    ensures
        match res {
            Ok(_) => trip_modifications_merged(data@, s as nat, e as nat, ctx as nat, old(m).deep_view()) == Ok::<
                SpecTripModifications,
                ErrorKind,
            >(final(m).deep_view()),
            Err(x) => trip_modifications_merged(data@, s as nat, e as nat, ctx as nat, old(m).deep_view()) == Err::<
                SpecTripModifications,
                ErrorKind,
            >(x.kind()),
        },
{
    if ctx == 0 {
        return Err(ParseError::RecursionLimitReached);
    }
    let _len = data.len();
    let fs = match split_fields(data, s, e, ctx - 1) {
        Ok(fs) => fs,
        Err(x) => {
            return Err(x);
        },
    };
    proof {
        lemma_fields_within(data@, s as nat, e as nat, (ctx - 1) as nat);
        assert(fs@.skip(0) =~= fs@);
    }
    let ghost init = m.deep_view();
    let mut i: usize = 0;
    while i < fs.len()
        invariant
            0 <= i <= fs@.len(),
            s <= e <= data@.len(),
            ctx > 0,
            init == old(m).deep_view(),
            fields_within(fs@, s as nat, e as nat),
            spec_fields(data@, s as nat, e as nat, (ctx - 1) as nat) == Ok::<Seq<Field>, ErrorKind>(fs@),
            fold_fields(fs@, init, trip_modifications_step(data@, (ctx - 1) as nat)) == fold_fields(
                fs@.skip(i as int),
                m.deep_view(),
                trip_modifications_step(data@, (ctx - 1) as nat),
            ),
        decreases fs@.len() - i,
    {
        proof {
            lemma_fold_step(fs@, i as int, init, m.deep_view(), trip_modifications_step(data@, (ctx - 1) as nat));
        }
        if let Err(x) = apply_trip_modifications_field(data, fs[i], m, ctx - 1) {
            return Err(x);
        }
        i += 1;
    }
    proof {
        assert(fs@.skip(fs@.len() as int) =~= Seq::<Field>::empty());
    }
    Ok(())
}

/// The effect of one field on a `SelectedTrips`; fields the schema does not know
/// are left aside.
#[verifier::opaque]
pub open spec fn selected_trips_applied(data: Seq<u8>, f: Field, m: SpecSelectedTrips, ctx: nat) -> Result<
    SpecSelectedTrips,
    ErrorKind,
> {
    if f.tag == 1 {
        match as_string(data, f.value) {
            Ok(v) => Ok(SpecSelectedTrips { trip_ids: m.trip_ids.push(v), ..m }),
            Err(x) => Err(x),
        }
    } else if f.tag == 2 {
        match as_string(data, f.value) {
            Ok(v) => Ok(SpecSelectedTrips { shape_id: Some(v), ..m }),
            Err(x) => Err(x),
        }
    } else {
        Ok(m)
    }
}

pub open spec fn selected_trips_step(data: Seq<u8>, ctx: nat) -> spec_fn(SpecSelectedTrips, Field) -> Result<
    SpecSelectedTrips,
    ErrorKind,
> {
    |m: SpecSelectedTrips, f: Field| selected_trips_applied(data, f, m, ctx)
}

/// One occurrence of a `SelectedTrips`, between `s` and `e`, merged into `init`:
/// the nesting budget must be above zero, and the fields are read with one
/// less.
pub open spec fn selected_trips_merged(data: Seq<u8>, s: nat, e: nat, ctx: nat, init: SpecSelectedTrips) -> Result<
    SpecSelectedTrips,
    ErrorKind,
> {
    if ctx == 0 {
        Err(ErrorKind::RecursionLimitReached)
    } else {
        match spec_fields(data, s, e, (ctx - 1) as nat) {
            Err(x) => Err(x),
            Ok(fs) => fold_fields(fs, init, selected_trips_step(data, (ctx - 1) as nat)),
        }
    }
}

fn apply_selected_trips_field(data: &[u8], f: Field, m: &mut SelectedTrips, ctx: u32) -> (res: Result<
    (),
    ParseError,
>)
    requires
        value_in(f.value, data@.len()),
    ensures
        match res {
            Ok(_) => selected_trips_applied(data@, f, old(m).deep_view(), ctx as nat) == Ok::<
                SpecSelectedTrips,
                ErrorKind,
            >(final(m).deep_view()),
            Err(x) => selected_trips_applied(data@, f, old(m).deep_view(), ctx as nat) == Err::<
                SpecSelectedTrips,
                ErrorKind,
            >(x.kind()),
        },
{
    reveal(selected_trips_applied);
    if f.tag == 1 {
        match get_string(data, f.value) {
            Ok(v) => {
                let ghost before = m.trip_ids.deep_view();
                let ghost vv = v@;
                m.trip_ids.push(v);
                assert(m.trip_ids.deep_view() =~= before.push(vv));
            },
            Err(x) => {
                return Err(x);
            },
        }
    } else if f.tag == 2 {
        match get_string(data, f.value) {
            Ok(v) => {
                m.shape_id = Some(v);
            },
            Err(x) => {
                return Err(x);
            },
        }
    }
    Ok(())
}

/// Merges the `SelectedTrips` between `s` and `e` into `m`.
pub fn merge_selected_trips(data: &[u8], s: usize, e: usize, ctx: u32, m: &mut SelectedTrips) -> (res: Result<
    (),
    ParseError,
>)
    requires
        s <= e <= data@.len(),
    ensures
        match res {
            Ok(_) => selected_trips_merged(data@, s as nat, e as nat, ctx as nat, old(m).deep_view()) == Ok::<
                SpecSelectedTrips,
                ErrorKind,
            >(final(m).deep_view()),
            Err(x) => selected_trips_merged(data@, s as nat, e as nat, ctx as nat, old(m).deep_view()) == Err::<
                SpecSelectedTrips,
                ErrorKind,
            >(x.kind()),
        },
{
    if ctx == 0 {
        return Err(ParseError::RecursionLimitReached);
    }
    let _len = data.len();
    let fs = match split_fields(data, s, e, ctx - 1) {
        Ok(fs) => fs,
        Err(x) => {
            return Err(x);
        },
    };
    proof {
        lemma_fields_within(data@, s as nat, e as nat, (ctx - 1) as nat);
        assert(fs@.skip(0) =~= fs@);
    }
    let ghost init = m.deep_view();
    let mut i: usize = 0;
    while i < fs.len()
        invariant
            0 <= i <= fs@.len(),
            s <= e <= data@.len(),
            ctx > 0,
            init == old(m).deep_view(),
            fields_within(fs@, s as nat, e as nat),
            spec_fields(data@, s as nat, e as nat, (ctx - 1) as nat) == Ok::<Seq<Field>, ErrorKind>(fs@),
            fold_fields(fs@, init, selected_trips_step(data@, (ctx - 1) as nat)) == fold_fields(
                fs@.skip(i as int),
                m.deep_view(),
                selected_trips_step(data@, (ctx - 1) as nat),
            ),
        decreases fs@.len() - i,
    {
        proof {
            lemma_fold_step(fs@, i as int, init, m.deep_view(), selected_trips_step(data@, (ctx - 1) as nat));
        }
        if let Err(x) = apply_selected_trips_field(data, fs[i], m, ctx - 1) {
            return Err(x);
        }
        i += 1;
    }
    proof {
        assert(fs@.skip(fs@.len() as int) =~= Seq::<Field>::empty());
    }
    Ok(())
}

/// The effect of one field on a `Modification`; fields the schema does not know
/// are left aside.
#[verifier::opaque]
pub open spec fn modification_applied(data: Seq<u8>, f: Field, m: SpecModification, ctx: nat) -> Result<
    SpecModification,
    ErrorKind,
> {
    if f.tag == 1 {
        match as_range(f.value) {
            Err(x) => Err(x),
            Ok((s, e)) => match stop_selector_merged(data, s, e, ctx, match m.start_stop_selector {
                Some(n) => n,
                None => stop_selector_default(),
            }) {
                Ok(n) => Ok(SpecModification { start_stop_selector: Some(n), ..m }),
                Err(x) => Err(x),
            },
        }
    } else if f.tag == 2 {
        match as_range(f.value) {
            Err(x) => Err(x),
            Ok((s, e)) => match stop_selector_merged(data, s, e, ctx, match m.end_stop_selector {
                Some(n) => n,
                None => stop_selector_default(),
            }) {
                Ok(n) => Ok(SpecModification { end_stop_selector: Some(n), ..m }),
                Err(x) => Err(x),
            },
        }
    } else if f.tag == 3 {
        match as_varint(f.value) {
            Ok(v) => Ok(SpecModification { propagated_modification_delay: Some(v as i32), ..m }),
            Err(x) => Err(x),
        }
    } else if f.tag == 4 {
        match as_range(f.value) {
            Err(x) => Err(x),
            Ok((s, e)) => match replacement_stop_merged(data, s, e, ctx, replacement_stop_default()) {
                Ok(n) => Ok(SpecModification { replacement_stops: m.replacement_stops.push(n), ..m }),
                Err(x) => Err(x),
            },
        }
    } else if f.tag == 5 {
        match as_string(data, f.value) {
            Ok(v) => Ok(SpecModification { service_alert_id: Some(v), ..m }),
            Err(x) => Err(x),
        }
    } else if f.tag == 6 {
        match as_varint(f.value) {
            Ok(v) => Ok(SpecModification { last_modified_time: Some(v), ..m }),
            Err(x) => Err(x),
        }
    } else {
        Ok(m)
    }
}

pub open spec fn modification_step(data: Seq<u8>, ctx: nat) -> spec_fn(SpecModification, Field) -> Result<
    SpecModification,
    ErrorKind,
> {
    |m: SpecModification, f: Field| modification_applied(data, f, m, ctx)
}

/// One occurrence of a `Modification`, between `s` and `e`, merged into `init`:
/// the nesting budget must be above zero, and the fields are read with one
/// less.
pub open spec fn modification_merged(data: Seq<u8>, s: nat, e: nat, ctx: nat, init: SpecModification) -> Result<
    SpecModification,
    ErrorKind,
> {
    if ctx == 0 {
        Err(ErrorKind::RecursionLimitReached)
    } else {
        match spec_fields(data, s, e, (ctx - 1) as nat) {
            Err(x) => Err(x),
            Ok(fs) => fold_fields(fs, init, modification_step(data, (ctx - 1) as nat)),
        }
    }
}

fn apply_modification_field(data: &[u8], f: Field, m: &mut Modification, ctx: u32) -> (res: Result<
    (),
    ParseError,
>)
    requires
        value_in(f.value, data@.len()),
    ensures
        match res {
            Ok(_) => modification_applied(data@, f, old(m).deep_view(), ctx as nat) == Ok::<
                SpecModification,
                ErrorKind,
            >(final(m).deep_view()),
            Err(x) => modification_applied(data@, f, old(m).deep_view(), ctx as nat) == Err::<
                SpecModification,
                ErrorKind,
            >(x.kind()),
        },
{
    reveal(modification_applied);
    if f.tag == 1 {
        let (s, e) = match get_range(f.value) {
            Ok(r) => r,
            Err(x) => {
                return Err(x);
            },
        };
        let mut sub = match m.start_stop_selector.take() {
            Some(n) => n,
            None => StopSelector::new(),
        };
        if let Err(x) = merge_stop_selector(data, s, e, ctx, &mut sub) {
            return Err(x);
        }
        m.start_stop_selector = Some(sub);
    } else if f.tag == 2 {
        let (s, e) = match get_range(f.value) {
            Ok(r) => r,
            Err(x) => {
                return Err(x);
            },
        };
        let mut sub = match m.end_stop_selector.take() {
            Some(n) => n,
            None => StopSelector::new(),
        };
        if let Err(x) = merge_stop_selector(data, s, e, ctx, &mut sub) {
            return Err(x);
        }
        m.end_stop_selector = Some(sub);
    } else if f.tag == 3 {
        match get_varint(f.value) {
            Ok(v) => {
                m.propagated_modification_delay = Some(v as i32);
            },
            Err(x) => {
                return Err(x);
            },
        }
    } else if f.tag == 4 {
        let (s, e) = match get_range(f.value) {
            Ok(r) => r,
            Err(x) => {
                return Err(x);
            },
        };
        let mut sub = ReplacementStop::new();
        if let Err(x) = merge_replacement_stop(data, s, e, ctx, &mut sub) {
            return Err(x);
        }
        let ghost before = m.replacement_stops.deep_view();
        let ghost sv = sub.deep_view();
        m.replacement_stops.push(sub);
        assert(m.replacement_stops.deep_view() =~= before.push(sv));
    } else if f.tag == 5 {
        match get_string(data, f.value) {
            Ok(v) => {
                m.service_alert_id = Some(v);
            },
            Err(x) => {
                return Err(x);
            },
        }
    } else if f.tag == 6 {
        match get_varint(f.value) {
            Ok(v) => {
                m.last_modified_time = Some(v);
            },
            Err(x) => {
                return Err(x);
            },
        }
    }
    Ok(())
}

/// Merges the `Modification` between `s` and `e` into `m`.
pub fn merge_modification(data: &[u8], s: usize, e: usize, ctx: u32, m: &mut Modification) -> (res: Result<
    (),
    ParseError,
>)
    requires
        s <= e <= data@.len(),
    ensures
        match res {
            Ok(_) => modification_merged(data@, s as nat, e as nat, ctx as nat, old(m).deep_view()) == Ok::<
                SpecModification,
                ErrorKind,
            >(final(m).deep_view()),
            Err(x) => modification_merged(data@, s as nat, e as nat, ctx as nat, old(m).deep_view()) == Err::<
                SpecModification,
                ErrorKind,
            >(x.kind()),
        },
{
    if ctx == 0 {
        return Err(ParseError::RecursionLimitReached);
    }
    let _len = data.len();
    let fs = match split_fields(data, s, e, ctx - 1) {
        Ok(fs) => fs,
        Err(x) => {
            return Err(x);
        },
    };
    proof {
        lemma_fields_within(data@, s as nat, e as nat, (ctx - 1) as nat);
        assert(fs@.skip(0) =~= fs@);
    }
    let ghost init = m.deep_view();
    let mut i: usize = 0;
    while i < fs.len()
        invariant
            0 <= i <= fs@.len(),
            s <= e <= data@.len(),
            ctx > 0,
            init == old(m).deep_view(),
            fields_within(fs@, s as nat, e as nat),
            spec_fields(data@, s as nat, e as nat, (ctx - 1) as nat) == Ok::<Seq<Field>, ErrorKind>(fs@),
            fold_fields(fs@, init, modification_step(data@, (ctx - 1) as nat)) == fold_fields(
                fs@.skip(i as int),
                m.deep_view(),
                modification_step(data@, (ctx - 1) as nat),
            ),
        decreases fs@.len() - i,
    {
        proof {
            lemma_fold_step(fs@, i as int, init, m.deep_view(), modification_step(data@, (ctx - 1) as nat));
        }
        if let Err(x) = apply_modification_field(data, fs[i], m, ctx - 1) {
            return Err(x);
        }
        i += 1;
    }
    proof {
        assert(fs@.skip(fs@.len() as int) =~= Seq::<Field>::empty());
    }
    Ok(())
}

/// The effect of one field on a `StopSelector`; fields the schema does not know
/// are left aside.
#[verifier::opaque]
pub open spec fn stop_selector_applied(data: Seq<u8>, f: Field, m: SpecStopSelector, ctx: nat) -> Result<
    SpecStopSelector,
    ErrorKind,
> {
    if f.tag == 1 {
        match as_varint(f.value) {
            Ok(v) => Ok(SpecStopSelector { stop_sequence: Some(v as u32), ..m }),
            Err(x) => Err(x),
        }
    } else if f.tag == 2 {
        match as_string(data, f.value) {
            Ok(v) => Ok(SpecStopSelector { stop_id: Some(v), ..m }),
            Err(x) => Err(x),
        }
    } else {
        Ok(m)
    }
}

pub open spec fn stop_selector_step(data: Seq<u8>, ctx: nat) -> spec_fn(SpecStopSelector, Field) -> Result<
    SpecStopSelector,
    ErrorKind,
> {
    |m: SpecStopSelector, f: Field| stop_selector_applied(data, f, m, ctx)
}

/// One occurrence of a `StopSelector`, between `s` and `e`, merged into `init`:
/// the nesting budget must be above zero, and the fields are read with one
/// less.
pub open spec fn stop_selector_merged(data: Seq<u8>, s: nat, e: nat, ctx: nat, init: SpecStopSelector) -> Result<
    SpecStopSelector,
    ErrorKind,
> {
    if ctx == 0 {
        Err(ErrorKind::RecursionLimitReached)
    } else {
        match spec_fields(data, s, e, (ctx - 1) as nat) {
            Err(x) => Err(x),
            Ok(fs) => fold_fields(fs, init, stop_selector_step(data, (ctx - 1) as nat)),
        }
    }
}

fn apply_stop_selector_field(data: &[u8], f: Field, m: &mut StopSelector, ctx: u32) -> (res: Result<
    (),
    ParseError,
>)
    requires
        value_in(f.value, data@.len()),
    ensures
        match res {
            Ok(_) => stop_selector_applied(data@, f, old(m).deep_view(), ctx as nat) == Ok::<
                SpecStopSelector,
                ErrorKind,
            >(final(m).deep_view()),
            Err(x) => stop_selector_applied(data@, f, old(m).deep_view(), ctx as nat) == Err::<
                SpecStopSelector,
                ErrorKind,
            >(x.kind()),
        },
{
    reveal(stop_selector_applied);
    if f.tag == 1 {
        match get_varint(f.value) {
            Ok(v) => {
                m.stop_sequence = Some(v as u32);
            },
            Err(x) => {
                return Err(x);
            },
        }
    } else if f.tag == 2 {
        match get_string(data, f.value) {
            Ok(v) => {
                m.stop_id = Some(v);
            },
            Err(x) => {
                return Err(x);
            },
        }
    }
    Ok(())
}

/// Merges the `StopSelector` between `s` and `e` into `m`.
pub fn merge_stop_selector(data: &[u8], s: usize, e: usize, ctx: u32, m: &mut StopSelector) -> (res: Result<
    (),
    ParseError,
>)
    requires
        s <= e <= data@.len(),
    ensures
        match res {
            Ok(_) => stop_selector_merged(data@, s as nat, e as nat, ctx as nat, old(m).deep_view()) == Ok::<
                SpecStopSelector,
                ErrorKind,
            >(final(m).deep_view()),
            Err(x) => stop_selector_merged(data@, s as nat, e as nat, ctx as nat, old(m).deep_view()) == Err::<
                SpecStopSelector,
                ErrorKind,
            >(x.kind()),
        },
{
    if ctx == 0 {
        return Err(ParseError::RecursionLimitReached);
    }
    let _len = data.len();
    let fs = match split_fields(data, s, e, ctx - 1) {
        Ok(fs) => fs,
        Err(x) => {
            return Err(x);
        },
    };
    proof {
        lemma_fields_within(data@, s as nat, e as nat, (ctx - 1) as nat);
        assert(fs@.skip(0) =~= fs@);
    }
    let ghost init = m.deep_view();
    let mut i: usize = 0;
    while i < fs.len()
        invariant
            0 <= i <= fs@.len(),
            s <= e <= data@.len(),
            ctx > 0,
            init == old(m).deep_view(),
            fields_within(fs@, s as nat, e as nat),
            spec_fields(data@, s as nat, e as nat, (ctx - 1) as nat) == Ok::<Seq<Field>, ErrorKind>(fs@),
            fold_fields(fs@, init, stop_selector_step(data@, (ctx - 1) as nat)) == fold_fields(
                fs@.skip(i as int),
                m.deep_view(),
                stop_selector_step(data@, (ctx - 1) as nat),
            ),
        decreases fs@.len() - i,
    {
        proof {
            lemma_fold_step(fs@, i as int, init, m.deep_view(), stop_selector_step(data@, (ctx - 1) as nat));
        }
        if let Err(x) = apply_stop_selector_field(data, fs[i], m, ctx - 1) {
            return Err(x);
        }
        i += 1;
    }
    proof {
        assert(fs@.skip(fs@.len() as int) =~= Seq::<Field>::empty());
    }
    Ok(())
}

/// The effect of one field on a `ReplacementStop`; fields the schema does not know
/// are left aside.
#[verifier::opaque]
pub open spec fn replacement_stop_applied(data: Seq<u8>, f: Field, m: SpecReplacementStop, ctx: nat) -> Result<
    SpecReplacementStop,
    ErrorKind,
> {
    if f.tag == 1 {
        match as_varint(f.value) {
            Ok(v) => Ok(SpecReplacementStop { travel_time_to_stop: Some(v as i32), ..m }),
            Err(x) => Err(x),
        }
    } else if f.tag == 2 {
        match as_string(data, f.value) {
            Ok(v) => Ok(SpecReplacementStop { stop_id: Some(v), ..m }),
            Err(x) => Err(x),
        }
    } else {
        Ok(m)
    }
}

pub open spec fn replacement_stop_step(data: Seq<u8>, ctx: nat) -> spec_fn(SpecReplacementStop, Field) -> Result<
    SpecReplacementStop,
    ErrorKind,
> {
    |m: SpecReplacementStop, f: Field| replacement_stop_applied(data, f, m, ctx)
}

/// One occurrence of a `ReplacementStop`, between `s` and `e`, merged into `init`:
/// the nesting budget must be above zero, and the fields are read with one
/// less.
pub open spec fn replacement_stop_merged(data: Seq<u8>, s: nat, e: nat, ctx: nat, init: SpecReplacementStop) -> Result<
    SpecReplacementStop,
    ErrorKind,
> {
    if ctx == 0 {
        Err(ErrorKind::RecursionLimitReached)
    } else {
        match spec_fields(data, s, e, (ctx - 1) as nat) {
            Err(x) => Err(x),
            Ok(fs) => fold_fields(fs, init, replacement_stop_step(data, (ctx - 1) as nat)),
        }
    }
}

fn apply_replacement_stop_field(data: &[u8], f: Field, m: &mut ReplacementStop, ctx: u32) -> (res: Result<
    (),
    ParseError,
>)
    requires
        value_in(f.value, data@.len()),
    ensures
        match res {
            Ok(_) => replacement_stop_applied(data@, f, old(m).deep_view(), ctx as nat) == Ok::<
                SpecReplacementStop,
                ErrorKind,
            >(final(m).deep_view()),
            Err(x) => replacement_stop_applied(data@, f, old(m).deep_view(), ctx as nat) == Err::<
                SpecReplacementStop,
                ErrorKind,
            >(x.kind()),
        },
{
    reveal(replacement_stop_applied);
    if f.tag == 1 {
        match get_varint(f.value) {
            Ok(v) => {
                m.travel_time_to_stop = Some(v as i32);
            },
            Err(x) => {
                return Err(x);
            },
        }
    } else if f.tag == 2 {
        match get_string(data, f.value) {
            Ok(v) => {
                m.stop_id = Some(v);
            },
            Err(x) => {
                return Err(x);
            },
        }
    }
    Ok(())
}

/// Merges the `ReplacementStop` between `s` and `e` into `m`.
pub fn merge_replacement_stop(data: &[u8], s: usize, e: usize, ctx: u32, m: &mut ReplacementStop) -> (res: Result<
    (),
    ParseError,
>)
    requires
        s <= e <= data@.len(),
    ensures
        match res {
            Ok(_) => replacement_stop_merged(data@, s as nat, e as nat, ctx as nat, old(m).deep_view()) == Ok::<
                SpecReplacementStop,
                ErrorKind,
            >(final(m).deep_view()),
            Err(x) => replacement_stop_merged(data@, s as nat, e as nat, ctx as nat, old(m).deep_view()) == Err::<
                SpecReplacementStop,
                ErrorKind,
            >(x.kind()),
        },
{
    if ctx == 0 {
        return Err(ParseError::RecursionLimitReached);
    }
    let _len = data.len();
    let fs = match split_fields(data, s, e, ctx - 1) {
        Ok(fs) => fs,
        Err(x) => {
            return Err(x);
        },
    };
    proof {
        lemma_fields_within(data@, s as nat, e as nat, (ctx - 1) as nat);
        assert(fs@.skip(0) =~= fs@);
    }
    let ghost init = m.deep_view();
    let mut i: usize = 0;
    while i < fs.len()
        invariant
            0 <= i <= fs@.len(),
            s <= e <= data@.len(),
            ctx > 0,
            init == old(m).deep_view(),
            fields_within(fs@, s as nat, e as nat),
            spec_fields(data@, s as nat, e as nat, (ctx - 1) as nat) == Ok::<Seq<Field>, ErrorKind>(fs@),
            fold_fields(fs@, init, replacement_stop_step(data@, (ctx - 1) as nat)) == fold_fields(
                fs@.skip(i as int),
                m.deep_view(),
                replacement_stop_step(data@, (ctx - 1) as nat),
            ),
        decreases fs@.len() - i,
    {
        proof {
            lemma_fold_step(fs@, i as int, init, m.deep_view(), replacement_stop_step(data@, (ctx - 1) as nat));
        }
        if let Err(x) = apply_replacement_stop_field(data, fs[i], m, ctx - 1) {
            return Err(x);
        }
        i += 1;
    }
    proof {
        assert(fs@.skip(fs@.len() as int) =~= Seq::<Field>::empty());
    }
    Ok(())
}

/// The feed that `data` encodes. The fields of the top-level message are read
/// with a nesting budget of 100, as `prost` does.
pub open spec fn spec_decode_feed(data: Seq<u8>) -> Result<SpecFeedMessage, ErrorKind> {
    match spec_fields(data, 0, data.len(), 100) {
        Err(x) => Err(x),
        Ok(fs) => fold_fields(fs, feed_message_default(), feed_message_step(data, 100)),
    }
}

/// Decodes a GTFS-realtime feed message.
pub fn decode_feed(data: &[u8]) -> (res: Result<FeedMessage, ParseError>)
    ensures
        match res {
            Ok(m) => spec_decode_feed(data@) == Ok::<SpecFeedMessage, ErrorKind>(m.deep_view()),
            Err(x) => spec_decode_feed(data@) == Err::<SpecFeedMessage, ErrorKind>(x.kind()),
        },
{
    let len = data.len();
    let fs = match split_fields(data, 0, len, 100) {
        Ok(fs) => fs,
        Err(x) => {
            return Err(x);
        },
    };
    proof {
        lemma_fields_within(data@, 0, len as nat, 100);
        assert(fs@.skip(0) =~= fs@);
    }
    let mut m = FeedMessage::new();
    let ghost init = m.deep_view();
    let mut i: usize = 0;
    while i < fs.len()
        invariant
            0 <= i <= fs@.len(),
            len == data@.len(),
            fields_within(fs@, 0, len as nat),
            spec_fields(data@, 0, len as nat, 100) == Ok::<Seq<Field>, ErrorKind>(fs@),
            init == feed_message_default(),
            fold_fields(fs@, init, feed_message_step(data@, 100)) == fold_fields(
                fs@.skip(i as int),
                m.deep_view(),
                feed_message_step(data@, 100),
            ),
        decreases fs@.len() - i,
    {
        proof {
            lemma_fold_step(fs@, i as int, init, m.deep_view(), feed_message_step(data@, 100));
        }
        if let Err(x) = apply_feed_message_field(data, fs[i], &mut m, 100) {
            return Err(x);
        }
        i += 1;
    }
    proof {
        assert(fs@.skip(fs@.len() as int) =~= Seq::<Field>::empty());
    }
    Ok(m)
}

} // verus!
