//! Encoding GTFS-realtime messages in the protocol-buffer wire format: each
//! field that is set, in the order of its number; strings as their UTF-8
//! bytes, nested messages behind their length.

use crate::model::{
    FeedMessage, SpecFeedMessage, FeedHeader, SpecFeedHeader, FeedEntity, SpecFeedEntity, TripUpdate, SpecTripUpdate, StopTimeEvent, SpecStopTimeEvent, StopTimeUpdate, SpecStopTimeUpdate, VehiclePosition, SpecVehiclePosition, Position, SpecPosition, TripDescriptor, SpecTripDescriptor, ModifiedTripSelector, SpecModifiedTripSelector, VehicleDescriptor, SpecVehicleDescriptor, Alert, SpecAlert, TimeRange, SpecTimeRange, EntitySelector, SpecEntitySelector, TranslatedString, SpecTranslatedString, Translation, SpecTranslation, TripModifications, SpecTripModifications, SelectedTrips, SpecSelectedTrips, Modification, SpecModification, StopSelector, SpecStopSelector, ReplacementStop, SpecReplacementStop
};
use crate::raw::RawMessage;
use crate::wire::{prost_encode_key, prost_encode_varint, varint_bytes};
use vstd::prelude::*;
use vstd::utf8::encode_utf8;

verus! {

/// The key of a field: its number and wire type.
pub open spec fn key_bytes(tag: nat, wt: nat) -> Seq<u8> {
    varint_bytes(tag * 8 + wt)
}

pub open spec fn varint_field(tag: nat, v: u64) -> Seq<u8> {
    key_bytes(tag, 0) + varint_bytes(v as nat)
}

/// The four bytes of `v`, little-endian.
pub open spec fn le32_bytes(v: u32) -> Seq<u8> {
    seq![
        (v % 256) as u8,
        ((v / 256) % 256) as u8,
        ((v / 65536) % 256) as u8,
        (v / 16777216) as u8,
    ]
}

/// The eight bytes of `v`, little-endian.
pub open spec fn le64_bytes(v: u64) -> Seq<u8> {
    le32_bytes((v % 4294967296) as u32) + le32_bytes((v / 4294967296) as u32)
}

pub open spec fn fixed32_field(tag: nat, v: u32) -> Seq<u8> {
    key_bytes(tag, 5) + le32_bytes(v)
}

pub open spec fn fixed64_field(tag: nat, v: u64) -> Seq<u8> {
    key_bytes(tag, 1) + le64_bytes(v)
}

/// A length-delimited field: key, length, bytes.
pub open spec fn bytes_field(tag: nat, b: Seq<u8>) -> Seq<u8> {
    key_bytes(tag, 2) + varint_bytes(b.len()) + b
}

pub open spec fn string_field(tag: nat, s: Seq<char>) -> Seq<u8> {
    bytes_field(tag, encode_utf8(s))
}

pub open spec fn opt_bytes_field(tag: nat, b: Option<Seq<u8>>) -> Seq<u8> {
    match b {
        Some(x) => bytes_field(tag, x),
        None => Seq::empty(),
    }
}

pub open spec fn opt_varint_field(tag: nat, v: Option<u64>) -> Seq<u8> {
    match v {
        Some(x) => varint_field(tag, x),
        None => Seq::empty(),
    }
}

pub open spec fn opt_fixed32_field(tag: nat, v: Option<u32>) -> Seq<u8> {
    match v {
        Some(x) => fixed32_field(tag, x),
        None => Seq::empty(),
    }
}

pub open spec fn opt_fixed64_field(tag: nat, v: Option<u64>) -> Seq<u8> {
    match v {
        Some(x) => fixed64_field(tag, x),
        None => Seq::empty(),
    }
}

/// One length-delimited field for each item, in order.
pub open spec fn repeated_bytes_field(tag: nat, items: Seq<Seq<u8>>) -> Seq<u8>
    decreases items.len(),
{
    if items.len() == 0 {
        Seq::empty()
    } else {
        repeated_bytes_field(tag, items.drop_last()) + bytes_field(tag, items.last())
    }
}

pub open spec fn utf8_encoder() -> spec_fn(Seq<char>) -> Seq<u8> {
    |s: Seq<char>| encode_utf8(s)
}

pub proof fn lemma_add_assoc(a: Seq<u8>, b: Seq<u8>, c: Seq<u8>)
    ensures
        (a + b) + c == a + (b + c),
{
    assert((a + b) + c =~= a + (b + c));
}

fn put_key(tag: u32, wt: u32, buf: &mut Vec<u8>)
    requires
        1 <= tag <= 536870911,
        wt <= 5,
    ensures
        final(buf)@ == old(buf)@ + key_bytes(tag as nat, wt as nat),
{
    prost_encode_key(tag, wt, buf);
}

fn put_varint_field(tag: u32, v: u64, buf: &mut Vec<u8>)
    requires
        1 <= tag <= 536870911,
    ensures
        final(buf)@ == old(buf)@ + varint_field(tag as nat, v),
{
    let ghost b0 = buf@;
    put_key(tag, 0, buf);
    prost_encode_varint(v, buf);
    assert(buf@ =~= b0 + varint_field(tag as nat, v));
}

fn put_le32(v: u32, buf: &mut Vec<u8>)
    ensures
        final(buf)@ == old(buf)@ + le32_bytes(v),
{
    let ghost b0 = buf@;
    buf.push((v % 256) as u8);
    buf.push(((v / 256) % 256) as u8);
    buf.push(((v / 65536) % 256) as u8);
    buf.push((v / 16777216) as u8);
    assert(buf@ =~= b0 + le32_bytes(v));
}

fn put_fixed32_field(tag: u32, v: u32, buf: &mut Vec<u8>)
    requires
        1 <= tag <= 536870911,
    ensures
        final(buf)@ == old(buf)@ + fixed32_field(tag as nat, v),
{
    let ghost b0 = buf@;
    put_key(tag, 5, buf);
    put_le32(v, buf);
    assert(buf@ =~= b0 + fixed32_field(tag as nat, v));
}

fn put_fixed64_field(tag: u32, v: u64, buf: &mut Vec<u8>)
    requires
        1 <= tag <= 536870911,
    ensures
        final(buf)@ == old(buf)@ + fixed64_field(tag as nat, v),
{
    let ghost b0 = buf@;
    put_key(tag, 1, buf);
    put_le32((v % 4294967296) as u32, buf);
    put_le32((v / 4294967296) as u32, buf);
    assert(buf@ =~= b0 + fixed64_field(tag as nat, v));
}

fn put_bytes_field(tag: u32, b: &[u8], buf: &mut Vec<u8>)
    requires
        1 <= tag <= 536870911,
    ensures
        final(buf)@ == old(buf)@ + bytes_field(tag as nat, b@),
{
    let ghost b0 = buf@;
    put_key(tag, 2, buf);
    prost_encode_varint(b.len() as u64, buf);
    let mut copy = vstd::slice::slice_to_vec(b);
    buf.append(&mut copy);
    assert(buf@ =~= b0 + bytes_field(tag as nat, b@));
}

fn put_string_field(tag: u32, s: &String, buf: &mut Vec<u8>)
    requires
        1 <= tag <= 536870911,
    ensures
        final(buf)@ == old(buf)@ + string_field(tag as nat, s@),
{
    put_bytes_field(tag, s.as_str().as_bytes(), buf);
}

fn put_opt_string_field(tag: u32, s: &Option<String>, buf: &mut Vec<u8>)
    requires
        1 <= tag <= 536870911,
    ensures
        final(buf)@ == old(buf)@ + match s.deep_view() {
            Some(x) => string_field(tag as nat, x),
            None => Seq::empty(),
        },
{
    match s {
        Some(x) => put_string_field(tag, x, buf),
        None => {
            assert(buf@ =~= buf@ + Seq::<u8>::empty());
        },
    }
}

fn put_opt_i32_field(tag: u32, v: Option<i32>, buf: &mut Vec<u8>)
    requires
        1 <= tag <= 536870911,
    ensures
        final(buf)@ == old(buf)@ + opt_varint_field(
            tag as nat,
            match v {
                Some(x) => Some(x as u64),
                None => None,
            },
        ),
{
    match v {
        Some(x) => put_varint_field(tag, x as u64, buf),
        None => {
            assert(buf@ =~= buf@ + Seq::<u8>::empty());
        },
    }
}

fn put_opt_u32_field(tag: u32, v: Option<u32>, buf: &mut Vec<u8>)
    requires
        1 <= tag <= 536870911,
    ensures
        final(buf)@ == old(buf)@ + opt_varint_field(
            tag as nat,
            match v {
                Some(x) => Some(x as u64),
                None => None,
            },
        ),
{
    match v {
        Some(x) => put_varint_field(tag, x as u64, buf),
        None => {
            assert(buf@ =~= buf@ + Seq::<u8>::empty());
        },
    }
}

fn put_opt_i64_field(tag: u32, v: Option<i64>, buf: &mut Vec<u8>)
    requires
        1 <= tag <= 536870911,
    ensures
        final(buf)@ == old(buf)@ + opt_varint_field(
            tag as nat,
            match v {
                Some(x) => Some(x as u64),
                None => None,
            },
        ),
{
    match v {
        Some(x) => put_varint_field(tag, x as u64, buf),
        None => {
            assert(buf@ =~= buf@ + Seq::<u8>::empty());
        },
    }
}

fn put_opt_u64_field(tag: u32, v: Option<u64>, buf: &mut Vec<u8>)
    requires
        1 <= tag <= 536870911,
    ensures
        final(buf)@ == old(buf)@ + opt_varint_field(
            tag as nat,
            match v {
                Some(x) => Some(x),
                None => None,
            },
        ),
{
    match v {
        Some(x) => put_varint_field(tag, x, buf),
        None => {
            assert(buf@ =~= buf@ + Seq::<u8>::empty());
        },
    }
}

fn put_opt_bool_field(tag: u32, v: Option<bool>, buf: &mut Vec<u8>)
    requires
        1 <= tag <= 536870911,
    ensures
        final(buf)@ == old(buf)@ + opt_varint_field(
            tag as nat,
            match v {
                Some(x) => Some(if x { 1u64 } else { 0u64 }),
                None => None,
            },
        ),
{
    match v {
        Some(x) => put_varint_field(tag, if x { 1u64 } else { 0u64 }, buf),
        None => {
            assert(buf@ =~= buf@ + Seq::<u8>::empty());
        },
    }
}

fn put_opt_fixed32_field(tag: u32, v: Option<u32>, buf: &mut Vec<u8>)
    requires
        1 <= tag <= 536870911,
    ensures
        final(buf)@ == old(buf)@ + opt_fixed32_field(tag as nat, v),
{
    match v {
        Some(x) => put_fixed32_field(tag, x, buf),
        None => {
            assert(buf@ =~= buf@ + Seq::<u8>::empty());
        },
    }
}

fn put_opt_fixed64_field(tag: u32, v: Option<u64>, buf: &mut Vec<u8>)
    requires
        1 <= tag <= 536870911,
    ensures
        final(buf)@ == old(buf)@ + opt_fixed64_field(tag as nat, v),
{
    match v {
        Some(x) => put_fixed64_field(tag, x, buf),
        None => {
            assert(buf@ =~= buf@ + Seq::<u8>::empty());
        },
    }
}

fn put_opt_raw_field(tag: u32, v: &Option<RawMessage>, buf: &mut Vec<u8>)
    requires
        1 <= tag <= 536870911,
    ensures
        final(buf)@ == old(buf)@ + opt_bytes_field(tag as nat, v.deep_view()),
{
    match v {
        Some(r) => put_bytes_field(tag, r.bytes.as_slice(), buf),
        None => {
            assert(buf@ =~= buf@ + Seq::<u8>::empty());
        },
    }
}

fn put_repeated_raw_field(tag: u32, items: &Vec<RawMessage>, buf: &mut Vec<u8>)
    requires
        1 <= tag <= 536870911,
    ensures
        final(buf)@ == old(buf)@ + repeated_bytes_field(tag as nat, items.deep_view()),
{
    let ghost b0 = buf@;
    let ghost es = items.deep_view();
    let mut j: usize = 0;
    assert(es.take(0) =~= Seq::<Seq<u8>>::empty());
    while j < items.len()
        invariant
            1 <= tag <= 536870911,
            0 <= j <= items@.len(),
            es == items.deep_view(),
            buf@ == b0 + repeated_bytes_field(tag as nat, es.take(j as int)),
        decreases items@.len() - j,
    {
        put_bytes_field(tag, items[j].bytes.as_slice(), buf);
        assert(es.take(j + 1).drop_last() =~= es.take(j as int));
        assert(es.take(j + 1).last() == es[j as int]);
        assert(buf@ =~= b0 + repeated_bytes_field(tag as nat, es.take(j + 1)));
        j += 1;
    }
    assert(es.take(items@.len() as int) =~= es);
}

fn put_repeated_string_field(tag: u32, items: &Vec<String>, buf: &mut Vec<u8>)
    requires
        1 <= tag <= 536870911,
    ensures
        final(buf)@ == old(buf)@ + repeated_bytes_field(
            tag as nat,
            items.deep_view().map_values(utf8_encoder()),
        ),
{
    let ghost b0 = buf@;
    let ghost f = utf8_encoder();
    let mut i: usize = 0;
    assert(items.deep_view().map_values(f).take(0) =~= Seq::<Seq<u8>>::empty());
    while i < items.len()
        invariant
            1 <= tag <= 536870911,
            0 <= i <= items@.len(),
            f == utf8_encoder(),
            buf@ == b0 + repeated_bytes_field(tag as nat, items.deep_view().map_values(f).take(i as int)),
        decreases items@.len() - i,
    {
        let ghost b1 = buf@;
        put_string_field(tag, &items[i], buf);
        let ghost es = items.deep_view().map_values(f);
        assert(es.take(i + 1).drop_last() =~= es.take(i as int));
        assert(es.take(i + 1).last() == encode_utf8(items@[i as int]@));
        assert(buf@ =~= b0 + repeated_bytes_field(tag as nat, es.take(i + 1)));
        i += 1;
    }
    assert(items.deep_view().map_values(f).take(items@.len() as int) =~= items.deep_view().map_values(f));
}

/// The wire bytes of a `FeedMessage`.
#[verifier::opaque]
pub open spec fn feed_message_encoded(m: SpecFeedMessage) -> Seq<u8> {
    (bytes_field(1, feed_header_encoded(m.header)))
    + (repeated_bytes_field(2, m.entity.map_values(feed_entity_encoder())))
}

pub open spec fn feed_message_encoder() -> spec_fn(SpecFeedMessage) -> Seq<u8> {
    |m: SpecFeedMessage| feed_message_encoded(m)
}

/// Appends the wire bytes of `m` to `buf`.
pub fn encode_feed_message(m: &FeedMessage, buf: &mut Vec<u8>)
    ensures
        final(buf)@ == old(buf)@ + feed_message_encoded(m.deep_view()),
{
    let ghost mv = m.deep_view();
    let ghost b0 = buf@;
    put_feed_header_field(1, &m.header, buf);
    let ghost mut acc = (bytes_field(1, feed_header_encoded(mv.header)));
    put_repeated_feed_entity_field(2, &m.entity, buf);
    proof {
        lemma_add_assoc(b0, acc, (repeated_bytes_field(2, mv.entity.map_values(feed_entity_encoder()))));
        acc = acc + (repeated_bytes_field(2, mv.entity.map_values(feed_entity_encoder())));
    }
    proof {
        reveal(feed_message_encoded);
    }
    assert(buf@ == b0 + feed_message_encoded(mv));
}

/// The wire bytes of a `FeedHeader`.
#[verifier::opaque]
pub open spec fn feed_header_encoded(m: SpecFeedHeader) -> Seq<u8> {
    (string_field(1, m.gtfs_realtime_version))
    + (opt_varint_field(
        2,
        match m.incrementality {
            Some(v) => Some(v as u64),
            None => None,
        },
    ))
    + (opt_varint_field(
        3,
        match m.timestamp {
            Some(v) => Some(v),
            None => None,
        },
    ))
    + (match m.feed_version {
        Some(x) => string_field(4, x),
        None => Seq::empty(),
    })
}

pub open spec fn feed_header_encoder() -> spec_fn(SpecFeedHeader) -> Seq<u8> {
    |m: SpecFeedHeader| feed_header_encoded(m)
}

/// Appends the wire bytes of `m` to `buf`.
pub fn encode_feed_header(m: &FeedHeader, buf: &mut Vec<u8>)
    ensures
        final(buf)@ == old(buf)@ + feed_header_encoded(m.deep_view()),
{
    let ghost mv = m.deep_view();
    let ghost b0 = buf@;
    put_string_field(1, &m.gtfs_realtime_version, buf);
    let ghost mut acc = (string_field(1, mv.gtfs_realtime_version));
    put_opt_i32_field(2, m.incrementality, buf);
    proof {
        lemma_add_assoc(b0, acc, (opt_varint_field(
                2,
                match mv.incrementality {
                    Some(v) => Some(v as u64),
                    None => None,
                },
            )));
        acc = acc + (opt_varint_field(
                2,
                match mv.incrementality {
                    Some(v) => Some(v as u64),
                    None => None,
                },
            ));
    }
    put_opt_u64_field(3, m.timestamp, buf);
    proof {
        lemma_add_assoc(b0, acc, (opt_varint_field(
                3,
                match mv.timestamp {
                    Some(v) => Some(v),
                    None => None,
                },
            )));
        acc = acc + (opt_varint_field(
                3,
                match mv.timestamp {
                    Some(v) => Some(v),
                    None => None,
                },
            ));
    }
    put_opt_string_field(4, &m.feed_version, buf);
    proof {
        lemma_add_assoc(b0, acc, (match mv.feed_version {
                Some(x) => string_field(4, x),
                None => Seq::empty(),
            }));
        acc = acc + (match mv.feed_version {
                Some(x) => string_field(4, x),
                None => Seq::empty(),
            });
    }
    proof {
        reveal(feed_header_encoded);
    }
    assert(buf@ == b0 + feed_header_encoded(mv));
}

/// The wire bytes of a `FeedEntity`.
#[verifier::opaque]
pub open spec fn feed_entity_encoded(m: SpecFeedEntity) -> Seq<u8> {
    (string_field(1, m.id))
    + (opt_varint_field(
        2,
        match m.is_deleted {
            Some(v) => Some(if v { 1u64 } else { 0u64 }),
            None => None,
        },
    ))
    + (opt_bytes_field(
        3,
        match m.trip_update {
            Some(x) => Some(trip_update_encoded(x)),
            None => None,
        },
    ))
    + (opt_bytes_field(
        4,
        match m.vehicle {
            Some(x) => Some(vehicle_position_encoded(x)),
            None => None,
        },
    ))
    + (opt_bytes_field(
        5,
        match m.alert {
            Some(x) => Some(alert_encoded(x)),
            None => None,
        },
    ))
    + (opt_bytes_field(6, m.shape))
    + (opt_bytes_field(7, m.stop))
    + (opt_bytes_field(
        8,
        match m.trip_modifications {
            Some(x) => Some(trip_modifications_encoded(x)),
            None => None,
        },
    ))
}

pub open spec fn feed_entity_encoder() -> spec_fn(SpecFeedEntity) -> Seq<u8> {
    |m: SpecFeedEntity| feed_entity_encoded(m)
}

/// Appends the wire bytes of `m` to `buf`.
pub fn encode_feed_entity(m: &FeedEntity, buf: &mut Vec<u8>)
    ensures
        final(buf)@ == old(buf)@ + feed_entity_encoded(m.deep_view()),
{
    let ghost mv = m.deep_view();
    let ghost b0 = buf@;
    put_string_field(1, &m.id, buf);
    let ghost mut acc = (string_field(1, mv.id));
    put_opt_bool_field(2, m.is_deleted, buf);
    proof {
        lemma_add_assoc(b0, acc, (opt_varint_field(
                2,
                match mv.is_deleted {
                    Some(v) => Some(if v { 1u64 } else { 0u64 }),
                    None => None,
                },
            )));
        acc = acc + (opt_varint_field(
                2,
                match mv.is_deleted {
                    Some(v) => Some(if v { 1u64 } else { 0u64 }),
                    None => None,
                },
            ));
    }
    put_opt_trip_update_field(3, &m.trip_update, buf);
    proof {
        lemma_add_assoc(b0, acc, (opt_bytes_field(
                3,
                match mv.trip_update {
                    Some(x) => Some(trip_update_encoded(x)),
                    None => None,
                },
            )));
        acc = acc + (opt_bytes_field(
                3,
                match mv.trip_update {
                    Some(x) => Some(trip_update_encoded(x)),
                    None => None,
                },
            ));
    }
    put_opt_vehicle_position_field(4, &m.vehicle, buf);
    proof {
        lemma_add_assoc(b0, acc, (opt_bytes_field(
                4,
                match mv.vehicle {
                    Some(x) => Some(vehicle_position_encoded(x)),
                    None => None,
                },
            )));
        acc = acc + (opt_bytes_field(
                4,
                match mv.vehicle {
                    Some(x) => Some(vehicle_position_encoded(x)),
                    None => None,
                },
            ));
    }
    put_opt_alert_field(5, &m.alert, buf);
    proof {
        lemma_add_assoc(b0, acc, (opt_bytes_field(
                5,
                match mv.alert {
                    Some(x) => Some(alert_encoded(x)),
                    None => None,
                },
            )));
        acc = acc + (opt_bytes_field(
                5,
                match mv.alert {
                    Some(x) => Some(alert_encoded(x)),
                    None => None,
                },
            ));
    }
    put_opt_raw_field(6, &m.shape, buf);
    proof {
        lemma_add_assoc(b0, acc, (opt_bytes_field(6, mv.shape)));
        acc = acc + (opt_bytes_field(6, mv.shape));
    }
    put_opt_raw_field(7, &m.stop, buf);
    proof {
        lemma_add_assoc(b0, acc, (opt_bytes_field(7, mv.stop)));
        acc = acc + (opt_bytes_field(7, mv.stop));
    }
    put_opt_trip_modifications_field(8, &m.trip_modifications, buf);
    proof {
        lemma_add_assoc(b0, acc, (opt_bytes_field(
                8,
                match mv.trip_modifications {
                    Some(x) => Some(trip_modifications_encoded(x)),
                    None => None,
                },
            )));
        acc = acc + (opt_bytes_field(
                8,
                match mv.trip_modifications {
                    Some(x) => Some(trip_modifications_encoded(x)),
                    None => None,
                },
            ));
    }
    proof {
        reveal(feed_entity_encoded);
    }
    assert(buf@ == b0 + feed_entity_encoded(mv));
}

/// The wire bytes of a `TripUpdate`.
#[verifier::opaque]
pub open spec fn trip_update_encoded(m: SpecTripUpdate) -> Seq<u8> {
    (bytes_field(1, trip_descriptor_encoded(m.trip)))
    + (repeated_bytes_field(2, m.stop_time_update.map_values(stop_time_update_encoder())))
    + (opt_bytes_field(
        3,
        match m.vehicle {
            Some(x) => Some(vehicle_descriptor_encoded(x)),
            None => None,
        },
    ))
    + (opt_varint_field(
        4,
        match m.timestamp {
            Some(v) => Some(v),
            None => None,
        },
    ))
    + (opt_varint_field(
        5,
        match m.delay {
            Some(v) => Some(v as u64),
            None => None,
        },
    ))
    + (opt_bytes_field(6, m.trip_properties))
}

pub open spec fn trip_update_encoder() -> spec_fn(SpecTripUpdate) -> Seq<u8> {
    |m: SpecTripUpdate| trip_update_encoded(m)
}

/// Appends the wire bytes of `m` to `buf`.
pub fn encode_trip_update(m: &TripUpdate, buf: &mut Vec<u8>)
    ensures
        final(buf)@ == old(buf)@ + trip_update_encoded(m.deep_view()),
{
    let ghost mv = m.deep_view();
    let ghost b0 = buf@;
    put_trip_descriptor_field(1, &m.trip, buf);
    let ghost mut acc = (bytes_field(1, trip_descriptor_encoded(mv.trip)));
    put_repeated_stop_time_update_field(2, &m.stop_time_update, buf);
    proof {
        lemma_add_assoc(b0, acc, (repeated_bytes_field(2, mv.stop_time_update.map_values(stop_time_update_encoder()))));
        acc = acc + (repeated_bytes_field(2, mv.stop_time_update.map_values(stop_time_update_encoder())));
    }
    put_opt_vehicle_descriptor_field(3, &m.vehicle, buf);
    proof {
        lemma_add_assoc(b0, acc, (opt_bytes_field(
                3,
                match mv.vehicle {
                    Some(x) => Some(vehicle_descriptor_encoded(x)),
                    None => None,
                },
            )));
        acc = acc + (opt_bytes_field(
                3,
                match mv.vehicle {
                    Some(x) => Some(vehicle_descriptor_encoded(x)),
                    None => None,
                },
            ));
    }
    put_opt_u64_field(4, m.timestamp, buf);
    proof {
        lemma_add_assoc(b0, acc, (opt_varint_field(
                4,
                match mv.timestamp {
                    Some(v) => Some(v),
                    None => None,
                },
            )));
        acc = acc + (opt_varint_field(
                4,
                match mv.timestamp {
                    Some(v) => Some(v),
                    None => None,
                },
            ));
    }
    put_opt_i32_field(5, m.delay, buf);
    proof {
        lemma_add_assoc(b0, acc, (opt_varint_field(
                5,
                match mv.delay {
                    Some(v) => Some(v as u64),
                    None => None,
                },
            )));
        acc = acc + (opt_varint_field(
                5,
                match mv.delay {
                    Some(v) => Some(v as u64),
                    None => None,
                },
            ));
    }
    put_opt_raw_field(6, &m.trip_properties, buf);
    proof {
        lemma_add_assoc(b0, acc, (opt_bytes_field(6, mv.trip_properties)));
        acc = acc + (opt_bytes_field(6, mv.trip_properties));
    }
    proof {
        reveal(trip_update_encoded);
    }
    assert(buf@ == b0 + trip_update_encoded(mv));
}

/// The wire bytes of a `StopTimeEvent`.
#[verifier::opaque]
pub open spec fn stop_time_event_encoded(m: SpecStopTimeEvent) -> Seq<u8> {
    (opt_varint_field(
        1,
        match m.delay {
            Some(v) => Some(v as u64),
            None => None,
        },
    ))
    + (opt_varint_field(
        2,
        match m.time {
            Some(v) => Some(v as u64),
            None => None,
        },
    ))
    + (opt_varint_field(
        3,
        match m.uncertainty {
            Some(v) => Some(v as u64),
            None => None,
        },
    ))
    + (opt_varint_field(
        4,
        match m.scheduled_time {
            Some(v) => Some(v as u64),
            None => None,
        },
    ))
}

pub open spec fn stop_time_event_encoder() -> spec_fn(SpecStopTimeEvent) -> Seq<u8> {
    |m: SpecStopTimeEvent| stop_time_event_encoded(m)
}

/// Appends the wire bytes of `m` to `buf`.
pub fn encode_stop_time_event(m: &StopTimeEvent, buf: &mut Vec<u8>)
    ensures
        final(buf)@ == old(buf)@ + stop_time_event_encoded(m.deep_view()),
{
    let ghost mv = m.deep_view();
    let ghost b0 = buf@;
    put_opt_i32_field(1, m.delay, buf);
    let ghost mut acc = (opt_varint_field(
                1,
                match mv.delay {
                    Some(v) => Some(v as u64),
                    None => None,
                },
            ));
    put_opt_i64_field(2, m.time, buf);
    proof {
        lemma_add_assoc(b0, acc, (opt_varint_field(
                2,
                match mv.time {
                    Some(v) => Some(v as u64),
                    None => None,
                },
            )));
        acc = acc + (opt_varint_field(
                2,
                match mv.time {
                    Some(v) => Some(v as u64),
                    None => None,
                },
            ));
    }
    put_opt_i32_field(3, m.uncertainty, buf);
    proof {
        lemma_add_assoc(b0, acc, (opt_varint_field(
                3,
                match mv.uncertainty {
                    Some(v) => Some(v as u64),
                    None => None,
                },
            )));
        acc = acc + (opt_varint_field(
                3,
                match mv.uncertainty {
                    Some(v) => Some(v as u64),
                    None => None,
                },
            ));
    }
    put_opt_i64_field(4, m.scheduled_time, buf);
    proof {
        lemma_add_assoc(b0, acc, (opt_varint_field(
                4,
                match mv.scheduled_time {
                    Some(v) => Some(v as u64),
                    None => None,
                },
            )));
        acc = acc + (opt_varint_field(
                4,
                match mv.scheduled_time {
                    Some(v) => Some(v as u64),
                    None => None,
                },
            ));
    }
    proof {
        reveal(stop_time_event_encoded);
    }
    assert(buf@ == b0 + stop_time_event_encoded(mv));
}

/// The wire bytes of a `StopTimeUpdate`.
#[verifier::opaque]
pub open spec fn stop_time_update_encoded(m: SpecStopTimeUpdate) -> Seq<u8> {
    (opt_varint_field(
        1,
        match m.stop_sequence {
            Some(v) => Some(v as u64),
            None => None,
        },
    ))
    + (opt_bytes_field(
        2,
        match m.arrival {
            Some(x) => Some(stop_time_event_encoded(x)),
            None => None,
        },
    ))
    + (opt_bytes_field(
        3,
        match m.departure {
            Some(x) => Some(stop_time_event_encoded(x)),
            None => None,
        },
    ))
    + (match m.stop_id {
        Some(x) => string_field(4, x),
        None => Seq::empty(),
    })
    + (opt_varint_field(
        5,
        match m.schedule_relationship {
            Some(v) => Some(v as u64),
            None => None,
        },
    ))
    + (opt_bytes_field(6, m.stop_time_properties))
    + (opt_varint_field(
        7,
        match m.departure_occupancy_status {
            Some(v) => Some(v as u64),
            None => None,
        },
    ))
}

pub open spec fn stop_time_update_encoder() -> spec_fn(SpecStopTimeUpdate) -> Seq<u8> {
    |m: SpecStopTimeUpdate| stop_time_update_encoded(m)
}

/// Appends the wire bytes of `m` to `buf`.
pub fn encode_stop_time_update(m: &StopTimeUpdate, buf: &mut Vec<u8>)
    ensures
        final(buf)@ == old(buf)@ + stop_time_update_encoded(m.deep_view()),
{
    let ghost mv = m.deep_view();
    let ghost b0 = buf@;
    put_opt_u32_field(1, m.stop_sequence, buf);
    let ghost mut acc = (opt_varint_field(
                1,
                match mv.stop_sequence {
                    Some(v) => Some(v as u64),
                    None => None,
                },
            ));
    put_opt_stop_time_event_field(2, &m.arrival, buf);
    proof {
        lemma_add_assoc(b0, acc, (opt_bytes_field(
                2,
                match mv.arrival {
                    Some(x) => Some(stop_time_event_encoded(x)),
                    None => None,
                },
            )));
        acc = acc + (opt_bytes_field(
                2,
                match mv.arrival {
                    Some(x) => Some(stop_time_event_encoded(x)),
                    None => None,
                },
            ));
    }
    put_opt_stop_time_event_field(3, &m.departure, buf);
    proof {
        lemma_add_assoc(b0, acc, (opt_bytes_field(
                3,
                match mv.departure {
                    Some(x) => Some(stop_time_event_encoded(x)),
                    None => None,
                },
            )));
        acc = acc + (opt_bytes_field(
                3,
                match mv.departure {
                    Some(x) => Some(stop_time_event_encoded(x)),
                    None => None,
                },
            ));
    }
    put_opt_string_field(4, &m.stop_id, buf);
    proof {
        lemma_add_assoc(b0, acc, (match mv.stop_id {
                Some(x) => string_field(4, x),
                None => Seq::empty(),
            }));
        acc = acc + (match mv.stop_id {
                Some(x) => string_field(4, x),
                None => Seq::empty(),
            });
    }
    put_opt_i32_field(5, m.schedule_relationship, buf);
    proof {
        lemma_add_assoc(b0, acc, (opt_varint_field(
                5,
                match mv.schedule_relationship {
                    Some(v) => Some(v as u64),
                    None => None,
                },
            )));
        acc = acc + (opt_varint_field(
                5,
                match mv.schedule_relationship {
                    Some(v) => Some(v as u64),
                    None => None,
                },
            ));
    }
    put_opt_raw_field(6, &m.stop_time_properties, buf);
    proof {
        lemma_add_assoc(b0, acc, (opt_bytes_field(6, mv.stop_time_properties)));
        acc = acc + (opt_bytes_field(6, mv.stop_time_properties));
    }
    put_opt_i32_field(7, m.departure_occupancy_status, buf);
    proof {
        lemma_add_assoc(b0, acc, (opt_varint_field(
                7,
                match mv.departure_occupancy_status {
                    Some(v) => Some(v as u64),
                    None => None,
                },
            )));
        acc = acc + (opt_varint_field(
                7,
                match mv.departure_occupancy_status {
                    Some(v) => Some(v as u64),
                    None => None,
                },
            ));
    }
    proof {
        reveal(stop_time_update_encoded);
    }
    assert(buf@ == b0 + stop_time_update_encoded(mv));
}

/// The wire bytes of a `VehiclePosition`.
#[verifier::opaque]
pub open spec fn vehicle_position_encoded(m: SpecVehiclePosition) -> Seq<u8> {
    (opt_bytes_field(
        1,
        match m.trip {
            Some(x) => Some(trip_descriptor_encoded(x)),
            None => None,
        },
    ))
    + (opt_bytes_field(
        2,
        match m.position {
            Some(x) => Some(position_encoded(x)),
            None => None,
        },
    ))
    + (opt_varint_field(
        3,
        match m.current_stop_sequence {
            Some(v) => Some(v as u64),
            None => None,
        },
    ))
    + (opt_varint_field(
        4,
        match m.current_status {
            Some(v) => Some(v as u64),
            None => None,
        },
    ))
    + (opt_varint_field(
        5,
        match m.timestamp {
            Some(v) => Some(v),
            None => None,
        },
    ))
    + (opt_varint_field(
        6,
        match m.congestion_level {
            Some(v) => Some(v as u64),
            None => None,
        },
    ))
    + (match m.stop_id {
        Some(x) => string_field(7, x),
        None => Seq::empty(),
    })
    + (opt_bytes_field(
        8,
        match m.vehicle {
            Some(x) => Some(vehicle_descriptor_encoded(x)),
            None => None,
        },
    ))
    + (opt_varint_field(
        9,
        match m.occupancy_status {
            Some(v) => Some(v as u64),
            None => None,
        },
    ))
    + (opt_varint_field(
        10,
        match m.occupancy_percentage {
            Some(v) => Some(v as u64),
            None => None,
        },
    ))
    + (repeated_bytes_field(11, m.multi_carriage_details))
}

pub open spec fn vehicle_position_encoder() -> spec_fn(SpecVehiclePosition) -> Seq<u8> {
    |m: SpecVehiclePosition| vehicle_position_encoded(m)
}

/// Appends the wire bytes of `m` to `buf`.
pub fn encode_vehicle_position(m: &VehiclePosition, buf: &mut Vec<u8>)
    ensures
        final(buf)@ == old(buf)@ + vehicle_position_encoded(m.deep_view()),
{
    let ghost mv = m.deep_view();
    let ghost b0 = buf@;
    put_opt_trip_descriptor_field(1, &m.trip, buf);
    let ghost mut acc = (opt_bytes_field(
                1,
                match mv.trip {
                    Some(x) => Some(trip_descriptor_encoded(x)),
                    None => None,
                },
            ));
    put_opt_position_field(2, &m.position, buf);
    proof {
        lemma_add_assoc(b0, acc, (opt_bytes_field(
                2,
                match mv.position {
                    Some(x) => Some(position_encoded(x)),
                    None => None,
                },
            )));
        acc = acc + (opt_bytes_field(
                2,
                match mv.position {
                    Some(x) => Some(position_encoded(x)),
                    None => None,
                },
            ));
    }
    put_opt_u32_field(3, m.current_stop_sequence, buf);
    proof {
        lemma_add_assoc(b0, acc, (opt_varint_field(
                3,
                match mv.current_stop_sequence {
                    Some(v) => Some(v as u64),
                    None => None,
                },
            )));
        acc = acc + (opt_varint_field(
                3,
                match mv.current_stop_sequence {
                    Some(v) => Some(v as u64),
                    None => None,
                },
            ));
    }
    put_opt_i32_field(4, m.current_status, buf);
    proof {
        lemma_add_assoc(b0, acc, (opt_varint_field(
                4,
                match mv.current_status {
                    Some(v) => Some(v as u64),
                    None => None,
                },
            )));
        acc = acc + (opt_varint_field(
                4,
                match mv.current_status {
                    Some(v) => Some(v as u64),
                    None => None,
                },
            ));
    }
    put_opt_u64_field(5, m.timestamp, buf);
    proof {
        lemma_add_assoc(b0, acc, (opt_varint_field(
                5,
                match mv.timestamp {
                    Some(v) => Some(v),
                    None => None,
                },
            )));
        acc = acc + (opt_varint_field(
                5,
                match mv.timestamp {
                    Some(v) => Some(v),
                    None => None,
                },
            ));
    }
    put_opt_i32_field(6, m.congestion_level, buf);
    proof {
        lemma_add_assoc(b0, acc, (opt_varint_field(
                6,
                match mv.congestion_level {
                    Some(v) => Some(v as u64),
                    None => None,
                },
            )));
        acc = acc + (opt_varint_field(
                6,
                match mv.congestion_level {
                    Some(v) => Some(v as u64),
                    None => None,
                },
            ));
    }
    put_opt_string_field(7, &m.stop_id, buf);
    proof {
        lemma_add_assoc(b0, acc, (match mv.stop_id {
                Some(x) => string_field(7, x),
                None => Seq::empty(),
            }));
        acc = acc + (match mv.stop_id {
                Some(x) => string_field(7, x),
                None => Seq::empty(),
            });
    }
    put_opt_vehicle_descriptor_field(8, &m.vehicle, buf);
    proof {
        lemma_add_assoc(b0, acc, (opt_bytes_field(
                8,
                match mv.vehicle {
                    Some(x) => Some(vehicle_descriptor_encoded(x)),
                    None => None,
                },
            )));
        acc = acc + (opt_bytes_field(
                8,
                match mv.vehicle {
                    Some(x) => Some(vehicle_descriptor_encoded(x)),
                    None => None,
                },
            ));
    }
    put_opt_i32_field(9, m.occupancy_status, buf);
    proof {
        lemma_add_assoc(b0, acc, (opt_varint_field(
                9,
                match mv.occupancy_status {
                    Some(v) => Some(v as u64),
                    None => None,
                },
            )));
        acc = acc + (opt_varint_field(
                9,
                match mv.occupancy_status {
                    Some(v) => Some(v as u64),
                    None => None,
                },
            ));
    }
    put_opt_u32_field(10, m.occupancy_percentage, buf);
    proof {
        lemma_add_assoc(b0, acc, (opt_varint_field(
                10,
                match mv.occupancy_percentage {
                    Some(v) => Some(v as u64),
                    None => None,
                },
            )));
        acc = acc + (opt_varint_field(
                10,
                match mv.occupancy_percentage {
                    Some(v) => Some(v as u64),
                    None => None,
                },
            ));
    }
    put_repeated_raw_field(11, &m.multi_carriage_details, buf);
    proof {
        lemma_add_assoc(b0, acc, (repeated_bytes_field(11, mv.multi_carriage_details)));
        acc = acc + (repeated_bytes_field(11, mv.multi_carriage_details));
    }
    proof {
        reveal(vehicle_position_encoded);
    }
    assert(buf@ == b0 + vehicle_position_encoded(mv));
}

/// The wire bytes of a `Position`.
#[verifier::opaque]
pub open spec fn position_encoded(m: SpecPosition) -> Seq<u8> {
    (fixed32_field(1, m.latitude))
    + (fixed32_field(2, m.longitude))
    + (opt_fixed32_field(3, m.bearing))
    + (opt_fixed64_field(4, m.odometer))
    + (opt_fixed32_field(5, m.speed))
}

pub open spec fn position_encoder() -> spec_fn(SpecPosition) -> Seq<u8> {
    |m: SpecPosition| position_encoded(m)
}

/// Appends the wire bytes of `m` to `buf`.
pub fn encode_position(m: &Position, buf: &mut Vec<u8>)
    ensures
        final(buf)@ == old(buf)@ + position_encoded(m.deep_view()),
{
    let ghost mv = m.deep_view();
    let ghost b0 = buf@;
    put_fixed32_field(1, m.latitude, buf);
    let ghost mut acc = (fixed32_field(1, mv.latitude));
    put_fixed32_field(2, m.longitude, buf);
    proof {
        lemma_add_assoc(b0, acc, (fixed32_field(2, mv.longitude)));
        acc = acc + (fixed32_field(2, mv.longitude));
    }
    put_opt_fixed32_field(3, m.bearing, buf);
    proof {
        lemma_add_assoc(b0, acc, (opt_fixed32_field(3, mv.bearing)));
        acc = acc + (opt_fixed32_field(3, mv.bearing));
    }
    put_opt_fixed64_field(4, m.odometer, buf);
    proof {
        lemma_add_assoc(b0, acc, (opt_fixed64_field(4, mv.odometer)));
        acc = acc + (opt_fixed64_field(4, mv.odometer));
    }
    put_opt_fixed32_field(5, m.speed, buf);
    proof {
        lemma_add_assoc(b0, acc, (opt_fixed32_field(5, mv.speed)));
        acc = acc + (opt_fixed32_field(5, mv.speed));
    }
    proof {
        reveal(position_encoded);
    }
    assert(buf@ == b0 + position_encoded(mv));
}

/// The wire bytes of a `TripDescriptor`.
#[verifier::opaque]
pub open spec fn trip_descriptor_encoded(m: SpecTripDescriptor) -> Seq<u8> {
    (match m.trip_id {
        Some(x) => string_field(1, x),
        None => Seq::empty(),
    })
    + (match m.start_time {
        Some(x) => string_field(2, x),
        None => Seq::empty(),
    })
    + (match m.start_date {
        Some(x) => string_field(3, x),
        None => Seq::empty(),
    })
    + (opt_varint_field(
        4,
        match m.schedule_relationship {
            Some(v) => Some(v as u64),
            None => None,
        },
    ))
    + (match m.route_id {
        Some(x) => string_field(5, x),
        None => Seq::empty(),
    })
    + (opt_varint_field(
        6,
        match m.direction_id {
            Some(v) => Some(v as u64),
            None => None,
        },
    ))
    + (opt_bytes_field(
        7,
        match m.modified_trip {
            Some(x) => Some(modified_trip_selector_encoded(x)),
            None => None,
        },
    ))
}

pub open spec fn trip_descriptor_encoder() -> spec_fn(SpecTripDescriptor) -> Seq<u8> {
    |m: SpecTripDescriptor| trip_descriptor_encoded(m)
}

/// Appends the wire bytes of `m` to `buf`.
pub fn encode_trip_descriptor(m: &TripDescriptor, buf: &mut Vec<u8>)
    ensures
        final(buf)@ == old(buf)@ + trip_descriptor_encoded(m.deep_view()),
{
    let ghost mv = m.deep_view();
    let ghost b0 = buf@;
    put_opt_string_field(1, &m.trip_id, buf);
    let ghost mut acc = (match mv.trip_id {
                Some(x) => string_field(1, x),
                None => Seq::empty(),
            });
    put_opt_string_field(2, &m.start_time, buf);
    proof {
        lemma_add_assoc(b0, acc, (match mv.start_time {
                Some(x) => string_field(2, x),
                None => Seq::empty(),
            }));
        acc = acc + (match mv.start_time {
                Some(x) => string_field(2, x),
                None => Seq::empty(),
            });
    }
    put_opt_string_field(3, &m.start_date, buf);
    proof {
        lemma_add_assoc(b0, acc, (match mv.start_date {
                Some(x) => string_field(3, x),
                None => Seq::empty(),
            }));
        acc = acc + (match mv.start_date {
                Some(x) => string_field(3, x),
                None => Seq::empty(),
            });
    }
    put_opt_i32_field(4, m.schedule_relationship, buf);
    proof {
        lemma_add_assoc(b0, acc, (opt_varint_field(
                4,
                match mv.schedule_relationship {
                    Some(v) => Some(v as u64),
                    None => None,
                },
            )));
        acc = acc + (opt_varint_field(
                4,
                match mv.schedule_relationship {
                    Some(v) => Some(v as u64),
                    None => None,
                },
            ));
    }
    put_opt_string_field(5, &m.route_id, buf);
    proof {
        lemma_add_assoc(b0, acc, (match mv.route_id {
                Some(x) => string_field(5, x),
                None => Seq::empty(),
            }));
        acc = acc + (match mv.route_id {
                Some(x) => string_field(5, x),
                None => Seq::empty(),
            });
    }
    put_opt_u32_field(6, m.direction_id, buf);
    proof {
        lemma_add_assoc(b0, acc, (opt_varint_field(
                6,
                match mv.direction_id {
                    Some(v) => Some(v as u64),
                    None => None,
                },
            )));
        acc = acc + (opt_varint_field(
                6,
                match mv.direction_id {
                    Some(v) => Some(v as u64),
                    None => None,
                },
            ));
    }
    put_opt_modified_trip_selector_field(7, &m.modified_trip, buf);
    proof {
        lemma_add_assoc(b0, acc, (opt_bytes_field(
                7,
                match mv.modified_trip {
                    Some(x) => Some(modified_trip_selector_encoded(x)),
                    None => None,
                },
            )));
        acc = acc + (opt_bytes_field(
                7,
                match mv.modified_trip {
                    Some(x) => Some(modified_trip_selector_encoded(x)),
                    None => None,
                },
            ));
    }
    proof {
        reveal(trip_descriptor_encoded);
    }
    assert(buf@ == b0 + trip_descriptor_encoded(mv));
}

/// The wire bytes of a `ModifiedTripSelector`.
#[verifier::opaque]
pub open spec fn modified_trip_selector_encoded(m: SpecModifiedTripSelector) -> Seq<u8> {
    (match m.modifications_id {
        Some(x) => string_field(1, x),
        None => Seq::empty(),
    })
    + (match m.affected_trip_id {
        Some(x) => string_field(2, x),
        None => Seq::empty(),
    })
    + (match m.start_time {
        Some(x) => string_field(3, x),
        None => Seq::empty(),
    })
    + (match m.start_date {
        Some(x) => string_field(4, x),
        None => Seq::empty(),
    })
}

pub open spec fn modified_trip_selector_encoder() -> spec_fn(SpecModifiedTripSelector) -> Seq<u8> {
    |m: SpecModifiedTripSelector| modified_trip_selector_encoded(m)
}

/// Appends the wire bytes of `m` to `buf`.
pub fn encode_modified_trip_selector(m: &ModifiedTripSelector, buf: &mut Vec<u8>)
    ensures
        final(buf)@ == old(buf)@ + modified_trip_selector_encoded(m.deep_view()),
{
    let ghost mv = m.deep_view();
    let ghost b0 = buf@;
    put_opt_string_field(1, &m.modifications_id, buf);
    let ghost mut acc = (match mv.modifications_id {
                Some(x) => string_field(1, x),
                None => Seq::empty(),
            });
    put_opt_string_field(2, &m.affected_trip_id, buf);
    proof {
        lemma_add_assoc(b0, acc, (match mv.affected_trip_id {
                Some(x) => string_field(2, x),
                None => Seq::empty(),
            }));
        acc = acc + (match mv.affected_trip_id {
                Some(x) => string_field(2, x),
                None => Seq::empty(),
            });
    }
    put_opt_string_field(3, &m.start_time, buf);
    proof {
        lemma_add_assoc(b0, acc, (match mv.start_time {
                Some(x) => string_field(3, x),
                None => Seq::empty(),
            }));
        acc = acc + (match mv.start_time {
                Some(x) => string_field(3, x),
                None => Seq::empty(),
            });
    }
    put_opt_string_field(4, &m.start_date, buf);
    proof {
        lemma_add_assoc(b0, acc, (match mv.start_date {
                Some(x) => string_field(4, x),
                None => Seq::empty(),
            }));
        acc = acc + (match mv.start_date {
                Some(x) => string_field(4, x),
                None => Seq::empty(),
            });
    }
    proof {
        reveal(modified_trip_selector_encoded);
    }
    assert(buf@ == b0 + modified_trip_selector_encoded(mv));
}

/// The wire bytes of a `VehicleDescriptor`.
#[verifier::opaque]
pub open spec fn vehicle_descriptor_encoded(m: SpecVehicleDescriptor) -> Seq<u8> {
    (match m.id {
        Some(x) => string_field(1, x),
        None => Seq::empty(),
    })
    + (match m.label {
        Some(x) => string_field(2, x),
        None => Seq::empty(),
    })
    + (match m.license_plate {
        Some(x) => string_field(3, x),
        None => Seq::empty(),
    })
    + (opt_varint_field(
        4,
        match m.wheelchair_accessible {
            Some(v) => Some(v as u64),
            None => None,
        },
    ))
}

pub open spec fn vehicle_descriptor_encoder() -> spec_fn(SpecVehicleDescriptor) -> Seq<u8> {
    |m: SpecVehicleDescriptor| vehicle_descriptor_encoded(m)
}

/// Appends the wire bytes of `m` to `buf`.
pub fn encode_vehicle_descriptor(m: &VehicleDescriptor, buf: &mut Vec<u8>)
    ensures
        final(buf)@ == old(buf)@ + vehicle_descriptor_encoded(m.deep_view()),
{
    let ghost mv = m.deep_view();
    let ghost b0 = buf@;
    put_opt_string_field(1, &m.id, buf);
    let ghost mut acc = (match mv.id {
                Some(x) => string_field(1, x),
                None => Seq::empty(),
            });
    put_opt_string_field(2, &m.label, buf);
    proof {
        lemma_add_assoc(b0, acc, (match mv.label {
                Some(x) => string_field(2, x),
                None => Seq::empty(),
            }));
        acc = acc + (match mv.label {
                Some(x) => string_field(2, x),
                None => Seq::empty(),
            });
    }
    put_opt_string_field(3, &m.license_plate, buf);
    proof {
        lemma_add_assoc(b0, acc, (match mv.license_plate {
                Some(x) => string_field(3, x),
                None => Seq::empty(),
            }));
        acc = acc + (match mv.license_plate {
                Some(x) => string_field(3, x),
                None => Seq::empty(),
            });
    }
    put_opt_i32_field(4, m.wheelchair_accessible, buf);
    proof {
        lemma_add_assoc(b0, acc, (opt_varint_field(
                4,
                match mv.wheelchair_accessible {
                    Some(v) => Some(v as u64),
                    None => None,
                },
            )));
        acc = acc + (opt_varint_field(
                4,
                match mv.wheelchair_accessible {
                    Some(v) => Some(v as u64),
                    None => None,
                },
            ));
    }
    proof {
        reveal(vehicle_descriptor_encoded);
    }
    assert(buf@ == b0 + vehicle_descriptor_encoded(mv));
}

/// The wire bytes of a `Alert`.
#[verifier::opaque]
pub open spec fn alert_encoded(m: SpecAlert) -> Seq<u8> {
    (repeated_bytes_field(1, m.active_period.map_values(time_range_encoder())))
    + (repeated_bytes_field(5, m.informed_entity.map_values(entity_selector_encoder())))
    + (opt_varint_field(
        6,
        match m.cause {
            Some(v) => Some(v as u64),
            None => None,
        },
    ))
    + (opt_varint_field(
        7,
        match m.effect {
            Some(v) => Some(v as u64),
            None => None,
        },
    ))
    + (opt_bytes_field(
        8,
        match m.url {
            Some(x) => Some(translated_string_encoded(x)),
            None => None,
        },
    ))
    + (opt_bytes_field(
        10,
        match m.header_text {
            Some(x) => Some(translated_string_encoded(x)),
            None => None,
        },
    ))
    + (opt_bytes_field(
        11,
        match m.description_text {
            Some(x) => Some(translated_string_encoded(x)),
            None => None,
        },
    ))
    + (opt_bytes_field(
        12,
        match m.tts_header_text {
            Some(x) => Some(translated_string_encoded(x)),
            None => None,
        },
    ))
    + (opt_bytes_field(
        13,
        match m.tts_description_text {
            Some(x) => Some(translated_string_encoded(x)),
            None => None,
        },
    ))
    + (opt_varint_field(
        14,
        match m.severity_level {
            Some(v) => Some(v as u64),
            None => None,
        },
    ))
    + (opt_bytes_field(15, m.image))
    + (opt_bytes_field(
        16,
        match m.image_alternative_text {
            Some(x) => Some(translated_string_encoded(x)),
            None => None,
        },
    ))
    + (opt_bytes_field(
        17,
        match m.cause_detail {
            Some(x) => Some(translated_string_encoded(x)),
            None => None,
        },
    ))
    + (opt_bytes_field(
        18,
        match m.effect_detail {
            Some(x) => Some(translated_string_encoded(x)),
            None => None,
        },
    ))
}

pub open spec fn alert_encoder() -> spec_fn(SpecAlert) -> Seq<u8> {
    |m: SpecAlert| alert_encoded(m)
}

/// Appends the wire bytes of `m` to `buf`.
pub fn encode_alert(m: &Alert, buf: &mut Vec<u8>)
    ensures
        final(buf)@ == old(buf)@ + alert_encoded(m.deep_view()),
{
    let ghost mv = m.deep_view();
    let ghost b0 = buf@;
    put_repeated_time_range_field(1, &m.active_period, buf);
    let ghost mut acc = (repeated_bytes_field(1, mv.active_period.map_values(time_range_encoder())));
    put_repeated_entity_selector_field(5, &m.informed_entity, buf);
    proof {
        lemma_add_assoc(b0, acc, (repeated_bytes_field(5, mv.informed_entity.map_values(entity_selector_encoder()))));
        acc = acc + (repeated_bytes_field(5, mv.informed_entity.map_values(entity_selector_encoder())));
    }
    put_opt_i32_field(6, m.cause, buf);
    proof {
        lemma_add_assoc(b0, acc, (opt_varint_field(
                6,
                match mv.cause {
                    Some(v) => Some(v as u64),
                    None => None,
                },
            )));
        acc = acc + (opt_varint_field(
                6,
                match mv.cause {
                    Some(v) => Some(v as u64),
                    None => None,
                },
            ));
    }
    put_opt_i32_field(7, m.effect, buf);
    proof {
        lemma_add_assoc(b0, acc, (opt_varint_field(
                7,
                match mv.effect {
                    Some(v) => Some(v as u64),
                    None => None,
                },
            )));
        acc = acc + (opt_varint_field(
                7,
                match mv.effect {
                    Some(v) => Some(v as u64),
                    None => None,
                },
            ));
    }
    put_opt_translated_string_field(8, &m.url, buf);
    proof {
        lemma_add_assoc(b0, acc, (opt_bytes_field(
                8,
                match mv.url {
                    Some(x) => Some(translated_string_encoded(x)),
                    None => None,
                },
            )));
        acc = acc + (opt_bytes_field(
                8,
                match mv.url {
                    Some(x) => Some(translated_string_encoded(x)),
                    None => None,
                },
            ));
    }
    put_opt_translated_string_field(10, &m.header_text, buf);
    proof {
        lemma_add_assoc(b0, acc, (opt_bytes_field(
                10,
                match mv.header_text {
                    Some(x) => Some(translated_string_encoded(x)),
                    None => None,
                },
            )));
        acc = acc + (opt_bytes_field(
                10,
                match mv.header_text {
                    Some(x) => Some(translated_string_encoded(x)),
                    None => None,
                },
            ));
    }
    put_opt_translated_string_field(11, &m.description_text, buf);
    proof {
        lemma_add_assoc(b0, acc, (opt_bytes_field(
                11,
                match mv.description_text {
                    Some(x) => Some(translated_string_encoded(x)),
                    None => None,
                },
            )));
        acc = acc + (opt_bytes_field(
                11,
                match mv.description_text {
                    Some(x) => Some(translated_string_encoded(x)),
                    None => None,
                },
            ));
    }
    put_opt_translated_string_field(12, &m.tts_header_text, buf);
    proof {
        lemma_add_assoc(b0, acc, (opt_bytes_field(
                12,
                match mv.tts_header_text {
                    Some(x) => Some(translated_string_encoded(x)),
                    None => None,
                },
            )));
        acc = acc + (opt_bytes_field(
                12,
                match mv.tts_header_text {
                    Some(x) => Some(translated_string_encoded(x)),
                    None => None,
                },
            ));
    }
    put_opt_translated_string_field(13, &m.tts_description_text, buf);
    proof {
        lemma_add_assoc(b0, acc, (opt_bytes_field(
                13,
                match mv.tts_description_text {
                    Some(x) => Some(translated_string_encoded(x)),
                    None => None,
                },
            )));
        acc = acc + (opt_bytes_field(
                13,
                match mv.tts_description_text {
                    Some(x) => Some(translated_string_encoded(x)),
                    None => None,
                },
            ));
    }
    put_opt_i32_field(14, m.severity_level, buf);
    proof {
        lemma_add_assoc(b0, acc, (opt_varint_field(
                14,
                match mv.severity_level {
                    Some(v) => Some(v as u64),
                    None => None,
                },
            )));
        acc = acc + (opt_varint_field(
                14,
                match mv.severity_level {
                    Some(v) => Some(v as u64),
                    None => None,
                },
            ));
    }
    put_opt_raw_field(15, &m.image, buf);
    proof {
        lemma_add_assoc(b0, acc, (opt_bytes_field(15, mv.image)));
        acc = acc + (opt_bytes_field(15, mv.image));
    }
    put_opt_translated_string_field(16, &m.image_alternative_text, buf);
    proof {
        lemma_add_assoc(b0, acc, (opt_bytes_field(
                16,
                match mv.image_alternative_text {
                    Some(x) => Some(translated_string_encoded(x)),
                    None => None,
                },
            )));
        acc = acc + (opt_bytes_field(
                16,
                match mv.image_alternative_text {
                    Some(x) => Some(translated_string_encoded(x)),
                    None => None,
                },
            ));
    }
    put_opt_translated_string_field(17, &m.cause_detail, buf);
    proof {
        lemma_add_assoc(b0, acc, (opt_bytes_field(
                17,
                match mv.cause_detail {
                    Some(x) => Some(translated_string_encoded(x)),
                    None => None,
                },
            )));
        acc = acc + (opt_bytes_field(
                17,
                match mv.cause_detail {
                    Some(x) => Some(translated_string_encoded(x)),
                    None => None,
                },
            ));
    }
    put_opt_translated_string_field(18, &m.effect_detail, buf);
    proof {
        lemma_add_assoc(b0, acc, (opt_bytes_field(
                18,
                match mv.effect_detail {
                    Some(x) => Some(translated_string_encoded(x)),
                    None => None,
                },
            )));
        acc = acc + (opt_bytes_field(
                18,
                match mv.effect_detail {
                    Some(x) => Some(translated_string_encoded(x)),
                    None => None,
                },
            ));
    }
    proof {
        reveal(alert_encoded);
    }
    assert(buf@ == b0 + alert_encoded(mv));
}

/// The wire bytes of a `TimeRange`.
#[verifier::opaque]
pub open spec fn time_range_encoded(m: SpecTimeRange) -> Seq<u8> {
    (opt_varint_field(
        1,
        match m.start {
            Some(v) => Some(v),
            None => None,
        },
    ))
    + (opt_varint_field(
        2,
        match m.end {
            Some(v) => Some(v),
            None => None,
        },
    ))
}

pub open spec fn time_range_encoder() -> spec_fn(SpecTimeRange) -> Seq<u8> {
    |m: SpecTimeRange| time_range_encoded(m)
}

/// Appends the wire bytes of `m` to `buf`.
pub fn encode_time_range(m: &TimeRange, buf: &mut Vec<u8>)
    ensures
        final(buf)@ == old(buf)@ + time_range_encoded(m.deep_view()),
{
    let ghost mv = m.deep_view();
    let ghost b0 = buf@;
    put_opt_u64_field(1, m.start, buf);
    let ghost mut acc = (opt_varint_field(
                1,
                match mv.start {
                    Some(v) => Some(v),
                    None => None,
                },
            ));
    put_opt_u64_field(2, m.end, buf);
    proof {
        lemma_add_assoc(b0, acc, (opt_varint_field(
                2,
                match mv.end {
                    Some(v) => Some(v),
                    None => None,
                },
            )));
        acc = acc + (opt_varint_field(
                2,
                match mv.end {
                    Some(v) => Some(v),
                    None => None,
                },
            ));
    }
    proof {
        reveal(time_range_encoded);
    }
    assert(buf@ == b0 + time_range_encoded(mv));
}

/// The wire bytes of a `EntitySelector`.
#[verifier::opaque]
pub open spec fn entity_selector_encoded(m: SpecEntitySelector) -> Seq<u8> {
    (match m.agency_id {
        Some(x) => string_field(1, x),
        None => Seq::empty(),
    })
    + (match m.route_id {
        Some(x) => string_field(2, x),
        None => Seq::empty(),
    })
    + (opt_varint_field(
        3,
        match m.route_type {
            Some(v) => Some(v as u64),
            None => None,
        },
    ))
    + (opt_bytes_field(
        4,
        match m.trip {
            Some(x) => Some(trip_descriptor_encoded(x)),
            None => None,
        },
    ))
    + (match m.stop_id {
        Some(x) => string_field(5, x),
        None => Seq::empty(),
    })
    + (opt_varint_field(
        6,
        match m.direction_id {
            Some(v) => Some(v as u64),
            None => None,
        },
    ))
}

pub open spec fn entity_selector_encoder() -> spec_fn(SpecEntitySelector) -> Seq<u8> {
    |m: SpecEntitySelector| entity_selector_encoded(m)
}

/// Appends the wire bytes of `m` to `buf`.
pub fn encode_entity_selector(m: &EntitySelector, buf: &mut Vec<u8>)
    ensures
        final(buf)@ == old(buf)@ + entity_selector_encoded(m.deep_view()),
{
    let ghost mv = m.deep_view();
    let ghost b0 = buf@;
    put_opt_string_field(1, &m.agency_id, buf);
    let ghost mut acc = (match mv.agency_id {
                Some(x) => string_field(1, x),
                None => Seq::empty(),
            });
    put_opt_string_field(2, &m.route_id, buf);
    proof {
        lemma_add_assoc(b0, acc, (match mv.route_id {
                Some(x) => string_field(2, x),
                None => Seq::empty(),
            }));
        acc = acc + (match mv.route_id {
                Some(x) => string_field(2, x),
                None => Seq::empty(),
            });
    }
    put_opt_i32_field(3, m.route_type, buf);
    proof {
        lemma_add_assoc(b0, acc, (opt_varint_field(
                3,
                match mv.route_type {
                    Some(v) => Some(v as u64),
                    None => None,
                },
            )));
        acc = acc + (opt_varint_field(
                3,
                match mv.route_type {
                    Some(v) => Some(v as u64),
                    None => None,
                },
            ));
    }
    put_opt_trip_descriptor_field(4, &m.trip, buf);
    proof {
        lemma_add_assoc(b0, acc, (opt_bytes_field(
                4,
                match mv.trip {
                    Some(x) => Some(trip_descriptor_encoded(x)),
                    None => None,
                },
            )));
        acc = acc + (opt_bytes_field(
                4,
                match mv.trip {
                    Some(x) => Some(trip_descriptor_encoded(x)),
                    None => None,
                },
            ));
    }
    put_opt_string_field(5, &m.stop_id, buf);
    proof {
        lemma_add_assoc(b0, acc, (match mv.stop_id {
                Some(x) => string_field(5, x),
                None => Seq::empty(),
            }));
        acc = acc + (match mv.stop_id {
                Some(x) => string_field(5, x),
                None => Seq::empty(),
            });
    }
    put_opt_u32_field(6, m.direction_id, buf);
    proof {
        lemma_add_assoc(b0, acc, (opt_varint_field(
                6,
                match mv.direction_id {
                    Some(v) => Some(v as u64),
                    None => None,
                },
            )));
        acc = acc + (opt_varint_field(
                6,
                match mv.direction_id {
                    Some(v) => Some(v as u64),
                    None => None,
                },
            ));
    }
    proof {
        reveal(entity_selector_encoded);
    }
    assert(buf@ == b0 + entity_selector_encoded(mv));
}

/// The wire bytes of a `TranslatedString`.
#[verifier::opaque]
pub open spec fn translated_string_encoded(m: SpecTranslatedString) -> Seq<u8> {
    (repeated_bytes_field(1, m.translation.map_values(translation_encoder())))
}

pub open spec fn translated_string_encoder() -> spec_fn(SpecTranslatedString) -> Seq<u8> {
    |m: SpecTranslatedString| translated_string_encoded(m)
}

/// Appends the wire bytes of `m` to `buf`.
pub fn encode_translated_string(m: &TranslatedString, buf: &mut Vec<u8>)
    ensures
        final(buf)@ == old(buf)@ + translated_string_encoded(m.deep_view()),
{
    let ghost mv = m.deep_view();
    let ghost b0 = buf@;
    put_repeated_translation_field(1, &m.translation, buf);
    let ghost mut acc = (repeated_bytes_field(1, mv.translation.map_values(translation_encoder())));
    proof {
        reveal(translated_string_encoded);
    }
    assert(buf@ == b0 + translated_string_encoded(mv));
}

/// The wire bytes of a `Translation`.
#[verifier::opaque]
pub open spec fn translation_encoded(m: SpecTranslation) -> Seq<u8> {
    (string_field(1, m.text))
    + (match m.language {
        Some(x) => string_field(2, x),
        None => Seq::empty(),
    })
}

pub open spec fn translation_encoder() -> spec_fn(SpecTranslation) -> Seq<u8> {
    |m: SpecTranslation| translation_encoded(m)
}

/// Appends the wire bytes of `m` to `buf`.
pub fn encode_translation(m: &Translation, buf: &mut Vec<u8>)
    ensures
        final(buf)@ == old(buf)@ + translation_encoded(m.deep_view()),
{
    let ghost mv = m.deep_view();
    let ghost b0 = buf@;
    put_string_field(1, &m.text, buf);
    let ghost mut acc = (string_field(1, mv.text));
    put_opt_string_field(2, &m.language, buf);
    proof {
        lemma_add_assoc(b0, acc, (match mv.language {
                Some(x) => string_field(2, x),
                None => Seq::empty(),
            }));
        acc = acc + (match mv.language {
                Some(x) => string_field(2, x),
                None => Seq::empty(),
            });
    }
    proof {
        reveal(translation_encoded);
    }
    assert(buf@ == b0 + translation_encoded(mv));
}

/// The wire bytes of a `TripModifications`.
#[verifier::opaque]
pub open spec fn trip_modifications_encoded(m: SpecTripModifications) -> Seq<u8> {
    (repeated_bytes_field(1, m.selected_trips.map_values(selected_trips_encoder())))
    + (repeated_bytes_field(2, m.start_times.map_values(utf8_encoder())))
    + (repeated_bytes_field(3, m.service_dates.map_values(utf8_encoder())))
    + (repeated_bytes_field(4, m.modifications.map_values(modification_encoder())))
}

pub open spec fn trip_modifications_encoder() -> spec_fn(SpecTripModifications) -> Seq<u8> {
    |m: SpecTripModifications| trip_modifications_encoded(m)
}

/// Appends the wire bytes of `m` to `buf`.
pub fn encode_trip_modifications(m: &TripModifications, buf: &mut Vec<u8>)
    ensures
        final(buf)@ == old(buf)@ + trip_modifications_encoded(m.deep_view()),
{
    let ghost mv = m.deep_view();
    let ghost b0 = buf@;
    put_repeated_selected_trips_field(1, &m.selected_trips, buf);
    let ghost mut acc = (repeated_bytes_field(1, mv.selected_trips.map_values(selected_trips_encoder())));
    put_repeated_string_field(2, &m.start_times, buf);
    proof {
        lemma_add_assoc(b0, acc, (repeated_bytes_field(2, mv.start_times.map_values(utf8_encoder()))));
        acc = acc + (repeated_bytes_field(2, mv.start_times.map_values(utf8_encoder())));
    }
    put_repeated_string_field(3, &m.service_dates, buf);
    proof {
        lemma_add_assoc(b0, acc, (repeated_bytes_field(3, mv.service_dates.map_values(utf8_encoder()))));
        acc = acc + (repeated_bytes_field(3, mv.service_dates.map_values(utf8_encoder())));
    }
    put_repeated_modification_field(4, &m.modifications, buf);
    proof {
        lemma_add_assoc(b0, acc, (repeated_bytes_field(4, mv.modifications.map_values(modification_encoder()))));
        acc = acc + (repeated_bytes_field(4, mv.modifications.map_values(modification_encoder())));
    }
    proof {
        reveal(trip_modifications_encoded);
    }
    assert(buf@ == b0 + trip_modifications_encoded(mv));
}

/// The wire bytes of a `SelectedTrips`.
#[verifier::opaque]
pub open spec fn selected_trips_encoded(m: SpecSelectedTrips) -> Seq<u8> {
    (repeated_bytes_field(1, m.trip_ids.map_values(utf8_encoder())))
    + (match m.shape_id {
        Some(x) => string_field(2, x),
        None => Seq::empty(),
    })
}

pub open spec fn selected_trips_encoder() -> spec_fn(SpecSelectedTrips) -> Seq<u8> {
    |m: SpecSelectedTrips| selected_trips_encoded(m)
}

/// Appends the wire bytes of `m` to `buf`.
pub fn encode_selected_trips(m: &SelectedTrips, buf: &mut Vec<u8>)
    ensures
        final(buf)@ == old(buf)@ + selected_trips_encoded(m.deep_view()),
{
    let ghost mv = m.deep_view();
    let ghost b0 = buf@;
    put_repeated_string_field(1, &m.trip_ids, buf);
    let ghost mut acc = (repeated_bytes_field(1, mv.trip_ids.map_values(utf8_encoder())));
    put_opt_string_field(2, &m.shape_id, buf);
    proof {
        lemma_add_assoc(b0, acc, (match mv.shape_id {
                Some(x) => string_field(2, x),
                None => Seq::empty(),
            }));
        acc = acc + (match mv.shape_id {
                Some(x) => string_field(2, x),
                None => Seq::empty(),
            });
    }
    proof {
        reveal(selected_trips_encoded);
    }
    assert(buf@ == b0 + selected_trips_encoded(mv));
}

/// The wire bytes of a `Modification`.
#[verifier::opaque]
pub open spec fn modification_encoded(m: SpecModification) -> Seq<u8> {
    (opt_bytes_field(
        1,
        match m.start_stop_selector {
            Some(x) => Some(stop_selector_encoded(x)),
            None => None,
        },
    ))
    + (opt_bytes_field(
        2,
        match m.end_stop_selector {
            Some(x) => Some(stop_selector_encoded(x)),
            None => None,
        },
    ))
    + (opt_varint_field(
        3,
        match m.propagated_modification_delay {
            Some(v) => Some(v as u64),
            None => None,
        },
    ))
    + (repeated_bytes_field(4, m.replacement_stops.map_values(replacement_stop_encoder())))
    + (match m.service_alert_id {
        Some(x) => string_field(5, x),
        None => Seq::empty(),
    })
    + (opt_varint_field(
        6,
        match m.last_modified_time {
            Some(v) => Some(v),
            None => None,
        },
    ))
}

pub open spec fn modification_encoder() -> spec_fn(SpecModification) -> Seq<u8> {
    |m: SpecModification| modification_encoded(m)
}

/// Appends the wire bytes of `m` to `buf`.
pub fn encode_modification(m: &Modification, buf: &mut Vec<u8>)
    ensures
        final(buf)@ == old(buf)@ + modification_encoded(m.deep_view()),
{
    let ghost mv = m.deep_view();
    let ghost b0 = buf@;
    put_opt_stop_selector_field(1, &m.start_stop_selector, buf);
    let ghost mut acc = (opt_bytes_field(
                1,
                match mv.start_stop_selector {
                    Some(x) => Some(stop_selector_encoded(x)),
                    None => None,
                },
            ));
    put_opt_stop_selector_field(2, &m.end_stop_selector, buf);
    proof {
        lemma_add_assoc(b0, acc, (opt_bytes_field(
                2,
                match mv.end_stop_selector {
                    Some(x) => Some(stop_selector_encoded(x)),
                    None => None,
                },
            )));
        acc = acc + (opt_bytes_field(
                2,
                match mv.end_stop_selector {
                    Some(x) => Some(stop_selector_encoded(x)),
                    None => None,
                },
            ));
    }
    put_opt_i32_field(3, m.propagated_modification_delay, buf);
    proof {
        lemma_add_assoc(b0, acc, (opt_varint_field(
                3,
                match mv.propagated_modification_delay {
                    Some(v) => Some(v as u64),
                    None => None,
                },
            )));
        acc = acc + (opt_varint_field(
                3,
                match mv.propagated_modification_delay {
                    Some(v) => Some(v as u64),
                    None => None,
                },
            ));
    }
    put_repeated_replacement_stop_field(4, &m.replacement_stops, buf);
    proof {
        lemma_add_assoc(b0, acc, (repeated_bytes_field(4, mv.replacement_stops.map_values(replacement_stop_encoder()))));
        acc = acc + (repeated_bytes_field(4, mv.replacement_stops.map_values(replacement_stop_encoder())));
    }
    put_opt_string_field(5, &m.service_alert_id, buf);
    proof {
        lemma_add_assoc(b0, acc, (match mv.service_alert_id {
                Some(x) => string_field(5, x),
                None => Seq::empty(),
            }));
        acc = acc + (match mv.service_alert_id {
                Some(x) => string_field(5, x),
                None => Seq::empty(),
            });
    }
    put_opt_u64_field(6, m.last_modified_time, buf);
    proof {
        lemma_add_assoc(b0, acc, (opt_varint_field(
                6,
                match mv.last_modified_time {
                    Some(v) => Some(v),
                    None => None,
                },
            )));
        acc = acc + (opt_varint_field(
                6,
                match mv.last_modified_time {
                    Some(v) => Some(v),
                    None => None,
                },
            ));
    }
    proof {
        reveal(modification_encoded);
    }
    assert(buf@ == b0 + modification_encoded(mv));
}

/// The wire bytes of a `StopSelector`.
#[verifier::opaque]
pub open spec fn stop_selector_encoded(m: SpecStopSelector) -> Seq<u8> {
    (opt_varint_field(
        1,
        match m.stop_sequence {
            Some(v) => Some(v as u64),
            None => None,
        },
    ))
    + (match m.stop_id {
        Some(x) => string_field(2, x),
        None => Seq::empty(),
    })
}

pub open spec fn stop_selector_encoder() -> spec_fn(SpecStopSelector) -> Seq<u8> {
    |m: SpecStopSelector| stop_selector_encoded(m)
}

/// Appends the wire bytes of `m` to `buf`.
pub fn encode_stop_selector(m: &StopSelector, buf: &mut Vec<u8>)
    ensures
        final(buf)@ == old(buf)@ + stop_selector_encoded(m.deep_view()),
{
    let ghost mv = m.deep_view();
    let ghost b0 = buf@;
    put_opt_u32_field(1, m.stop_sequence, buf);
    let ghost mut acc = (opt_varint_field(
                1,
                match mv.stop_sequence {
                    Some(v) => Some(v as u64),
                    None => None,
                },
            ));
    put_opt_string_field(2, &m.stop_id, buf);
    proof {
        lemma_add_assoc(b0, acc, (match mv.stop_id {
                Some(x) => string_field(2, x),
                None => Seq::empty(),
            }));
        acc = acc + (match mv.stop_id {
                Some(x) => string_field(2, x),
                None => Seq::empty(),
            });
    }
    proof {
        reveal(stop_selector_encoded);
    }
    assert(buf@ == b0 + stop_selector_encoded(mv));
}

/// The wire bytes of a `ReplacementStop`.
#[verifier::opaque]
pub open spec fn replacement_stop_encoded(m: SpecReplacementStop) -> Seq<u8> {
    (opt_varint_field(
        1,
        match m.travel_time_to_stop {
            Some(v) => Some(v as u64),
            None => None,
        },
    ))
    + (match m.stop_id {
        Some(x) => string_field(2, x),
        None => Seq::empty(),
    })
}

pub open spec fn replacement_stop_encoder() -> spec_fn(SpecReplacementStop) -> Seq<u8> {
    |m: SpecReplacementStop| replacement_stop_encoded(m)
}

/// Appends the wire bytes of `m` to `buf`.
pub fn encode_replacement_stop(m: &ReplacementStop, buf: &mut Vec<u8>)
    ensures
        final(buf)@ == old(buf)@ + replacement_stop_encoded(m.deep_view()),
{
    let ghost mv = m.deep_view();
    let ghost b0 = buf@;
    put_opt_i32_field(1, m.travel_time_to_stop, buf);
    let ghost mut acc = (opt_varint_field(
                1,
                match mv.travel_time_to_stop {
                    Some(v) => Some(v as u64),
                    None => None,
                },
            ));
    put_opt_string_field(2, &m.stop_id, buf);
    proof {
        lemma_add_assoc(b0, acc, (match mv.stop_id {
                Some(x) => string_field(2, x),
                None => Seq::empty(),
            }));
        acc = acc + (match mv.stop_id {
                Some(x) => string_field(2, x),
                None => Seq::empty(),
            });
    }
    proof {
        reveal(replacement_stop_encoded);
    }
    assert(buf@ == b0 + replacement_stop_encoded(mv));
}

fn put_opt_alert_field(tag: u32, x: &Option<Alert>, buf: &mut Vec<u8>)
    requires
        1 <= tag <= 536870911,
    ensures
        final(buf)@ == old(buf)@ + opt_bytes_field(
            tag as nat,
            match x.deep_view() {
                Some(y) => Some(alert_encoded(y)),
                None => None,
            },
        ),
{
    match x {
        Some(y) => put_alert_field(tag, y, buf),
        None => {
            assert(buf@ =~= buf@ + Seq::<u8>::empty());
        },
    }
}

fn put_repeated_entity_selector_field(tag: u32, items: &Vec<EntitySelector>, buf: &mut Vec<u8>)
    requires
        1 <= tag <= 536870911,
    ensures
        final(buf)@ == old(buf)@ + repeated_bytes_field(
            tag as nat,
            items.deep_view().map_values(entity_selector_encoder()),
        ),
{
    let ghost b0 = buf@;
    let ghost es = items.deep_view().map_values(entity_selector_encoder());
    let mut j: usize = 0;
    assert(es.take(0) =~= Seq::<Seq<u8>>::empty());
    while j < items.len()
        invariant
            1 <= tag <= 536870911,
            0 <= j <= items@.len(),
            es == items.deep_view().map_values(entity_selector_encoder()),
            buf@ == b0 + repeated_bytes_field(tag as nat, es.take(j as int)),
        decreases items@.len() - j,
    {
        put_entity_selector_field(tag, &items[j], buf);
        assert(es.take(j + 1).drop_last() =~= es.take(j as int));
        assert(es.take(j + 1).last() == es[j as int]);
        assert(buf@ =~= b0 + repeated_bytes_field(tag as nat, es.take(j + 1)));
        j += 1;
    }
    assert(es.take(items@.len() as int) =~= es);
}

fn put_repeated_feed_entity_field(tag: u32, items: &Vec<FeedEntity>, buf: &mut Vec<u8>)
    requires
        1 <= tag <= 536870911,
    ensures
        final(buf)@ == old(buf)@ + repeated_bytes_field(
            tag as nat,
            items.deep_view().map_values(feed_entity_encoder()),
        ),
{
    let ghost b0 = buf@;
    let ghost es = items.deep_view().map_values(feed_entity_encoder());
    let mut j: usize = 0;
    assert(es.take(0) =~= Seq::<Seq<u8>>::empty());
    while j < items.len()
        invariant
            1 <= tag <= 536870911,
            0 <= j <= items@.len(),
            es == items.deep_view().map_values(feed_entity_encoder()),
            buf@ == b0 + repeated_bytes_field(tag as nat, es.take(j as int)),
        decreases items@.len() - j,
    {
        put_feed_entity_field(tag, &items[j], buf);
        assert(es.take(j + 1).drop_last() =~= es.take(j as int));
        assert(es.take(j + 1).last() == es[j as int]);
        assert(buf@ =~= b0 + repeated_bytes_field(tag as nat, es.take(j + 1)));
        j += 1;
    }
    assert(es.take(items@.len() as int) =~= es);
}

fn put_feed_header_field(tag: u32, x: &FeedHeader, buf: &mut Vec<u8>)
    requires
        1 <= tag <= 536870911,
    ensures
        final(buf)@ == old(buf)@ + bytes_field(tag as nat, feed_header_encoded(x.deep_view())),
{
    let mut sub: Vec<u8> = Vec::new();
    encode_feed_header(x, &mut sub);
    assert(sub@ =~= Seq::<u8>::empty() + feed_header_encoded(x.deep_view()));
    put_bytes_field(tag, sub.as_slice(), buf);
}

fn put_repeated_modification_field(tag: u32, items: &Vec<Modification>, buf: &mut Vec<u8>)
    requires
        1 <= tag <= 536870911,
    ensures
        final(buf)@ == old(buf)@ + repeated_bytes_field(
            tag as nat,
            items.deep_view().map_values(modification_encoder()),
        ),
{
    let ghost b0 = buf@;
    let ghost es = items.deep_view().map_values(modification_encoder());
    let mut j: usize = 0;
    assert(es.take(0) =~= Seq::<Seq<u8>>::empty());
    while j < items.len()
        invariant
            1 <= tag <= 536870911,
            0 <= j <= items@.len(),
            es == items.deep_view().map_values(modification_encoder()),
            buf@ == b0 + repeated_bytes_field(tag as nat, es.take(j as int)),
        decreases items@.len() - j,
    {
        put_modification_field(tag, &items[j], buf);
        assert(es.take(j + 1).drop_last() =~= es.take(j as int));
        assert(es.take(j + 1).last() == es[j as int]);
        assert(buf@ =~= b0 + repeated_bytes_field(tag as nat, es.take(j + 1)));
        j += 1;
    }
    assert(es.take(items@.len() as int) =~= es);
}

fn put_opt_modified_trip_selector_field(tag: u32, x: &Option<ModifiedTripSelector>, buf: &mut Vec<u8>)
    requires
        1 <= tag <= 536870911,
    ensures
        final(buf)@ == old(buf)@ + opt_bytes_field(
            tag as nat,
            match x.deep_view() {
                Some(y) => Some(modified_trip_selector_encoded(y)),
                None => None,
            },
        ),
{
    match x {
        Some(y) => put_modified_trip_selector_field(tag, y, buf),
        None => {
            assert(buf@ =~= buf@ + Seq::<u8>::empty());
        },
    }
}

fn put_opt_position_field(tag: u32, x: &Option<Position>, buf: &mut Vec<u8>)
    requires
        1 <= tag <= 536870911,
    ensures
        final(buf)@ == old(buf)@ + opt_bytes_field(
            tag as nat,
            match x.deep_view() {
                Some(y) => Some(position_encoded(y)),
                None => None,
            },
        ),
{
    match x {
        Some(y) => put_position_field(tag, y, buf),
        None => {
            assert(buf@ =~= buf@ + Seq::<u8>::empty());
        },
    }
}

fn put_repeated_replacement_stop_field(tag: u32, items: &Vec<ReplacementStop>, buf: &mut Vec<u8>)
    requires
        1 <= tag <= 536870911,
    ensures
        final(buf)@ == old(buf)@ + repeated_bytes_field(
            tag as nat,
            items.deep_view().map_values(replacement_stop_encoder()),
        ),
{
    let ghost b0 = buf@;
    let ghost es = items.deep_view().map_values(replacement_stop_encoder());
    let mut j: usize = 0;
    assert(es.take(0) =~= Seq::<Seq<u8>>::empty());
    while j < items.len()
        invariant
            1 <= tag <= 536870911,
            0 <= j <= items@.len(),
            es == items.deep_view().map_values(replacement_stop_encoder()),
            buf@ == b0 + repeated_bytes_field(tag as nat, es.take(j as int)),
        decreases items@.len() - j,
    {
        put_replacement_stop_field(tag, &items[j], buf);
        assert(es.take(j + 1).drop_last() =~= es.take(j as int));
        assert(es.take(j + 1).last() == es[j as int]);
        assert(buf@ =~= b0 + repeated_bytes_field(tag as nat, es.take(j + 1)));
        j += 1;
    }
    assert(es.take(items@.len() as int) =~= es);
}

fn put_repeated_selected_trips_field(tag: u32, items: &Vec<SelectedTrips>, buf: &mut Vec<u8>)
    requires
        1 <= tag <= 536870911,
    ensures
        final(buf)@ == old(buf)@ + repeated_bytes_field(
            tag as nat,
            items.deep_view().map_values(selected_trips_encoder()),
        ),
{
    let ghost b0 = buf@;
    let ghost es = items.deep_view().map_values(selected_trips_encoder());
    let mut j: usize = 0;
    assert(es.take(0) =~= Seq::<Seq<u8>>::empty());
    while j < items.len()
        invariant
            1 <= tag <= 536870911,
            0 <= j <= items@.len(),
            es == items.deep_view().map_values(selected_trips_encoder()),
            buf@ == b0 + repeated_bytes_field(tag as nat, es.take(j as int)),
        decreases items@.len() - j,
    {
        put_selected_trips_field(tag, &items[j], buf);
        assert(es.take(j + 1).drop_last() =~= es.take(j as int));
        assert(es.take(j + 1).last() == es[j as int]);
        assert(buf@ =~= b0 + repeated_bytes_field(tag as nat, es.take(j + 1)));
        j += 1;
    }
    assert(es.take(items@.len() as int) =~= es);
}

fn put_opt_stop_selector_field(tag: u32, x: &Option<StopSelector>, buf: &mut Vec<u8>)
    requires
        1 <= tag <= 536870911,
    ensures
        final(buf)@ == old(buf)@ + opt_bytes_field(
            tag as nat,
            match x.deep_view() {
                Some(y) => Some(stop_selector_encoded(y)),
                None => None,
            },
        ),
{
    match x {
        Some(y) => put_stop_selector_field(tag, y, buf),
        None => {
            assert(buf@ =~= buf@ + Seq::<u8>::empty());
        },
    }
}

fn put_opt_stop_time_event_field(tag: u32, x: &Option<StopTimeEvent>, buf: &mut Vec<u8>)
    requires
        1 <= tag <= 536870911,
    ensures
        final(buf)@ == old(buf)@ + opt_bytes_field(
            tag as nat,
            match x.deep_view() {
                Some(y) => Some(stop_time_event_encoded(y)),
                None => None,
            },
        ),
{
    match x {
        Some(y) => put_stop_time_event_field(tag, y, buf),
        None => {
            assert(buf@ =~= buf@ + Seq::<u8>::empty());
        },
    }
}

fn put_repeated_stop_time_update_field(tag: u32, items: &Vec<StopTimeUpdate>, buf: &mut Vec<u8>)
    requires
        1 <= tag <= 536870911,
    ensures
        final(buf)@ == old(buf)@ + repeated_bytes_field(
            tag as nat,
            items.deep_view().map_values(stop_time_update_encoder()),
        ),
{
    let ghost b0 = buf@;
    let ghost es = items.deep_view().map_values(stop_time_update_encoder());
    let mut j: usize = 0;
    assert(es.take(0) =~= Seq::<Seq<u8>>::empty());
    while j < items.len()
        invariant
            1 <= tag <= 536870911,
            0 <= j <= items@.len(),
            es == items.deep_view().map_values(stop_time_update_encoder()),
            buf@ == b0 + repeated_bytes_field(tag as nat, es.take(j as int)),
        decreases items@.len() - j,
    {
        put_stop_time_update_field(tag, &items[j], buf);
        assert(es.take(j + 1).drop_last() =~= es.take(j as int));
        assert(es.take(j + 1).last() == es[j as int]);
        assert(buf@ =~= b0 + repeated_bytes_field(tag as nat, es.take(j + 1)));
        j += 1;
    }
    assert(es.take(items@.len() as int) =~= es);
}

fn put_repeated_time_range_field(tag: u32, items: &Vec<TimeRange>, buf: &mut Vec<u8>)
    requires
        1 <= tag <= 536870911,
    ensures
        final(buf)@ == old(buf)@ + repeated_bytes_field(
            tag as nat,
            items.deep_view().map_values(time_range_encoder()),
        ),
{
    let ghost b0 = buf@;
    let ghost es = items.deep_view().map_values(time_range_encoder());
    let mut j: usize = 0;
    assert(es.take(0) =~= Seq::<Seq<u8>>::empty());
    while j < items.len()
        invariant
            1 <= tag <= 536870911,
            0 <= j <= items@.len(),
            es == items.deep_view().map_values(time_range_encoder()),
            buf@ == b0 + repeated_bytes_field(tag as nat, es.take(j as int)),
        decreases items@.len() - j,
    {
        put_time_range_field(tag, &items[j], buf);
        assert(es.take(j + 1).drop_last() =~= es.take(j as int));
        assert(es.take(j + 1).last() == es[j as int]);
        assert(buf@ =~= b0 + repeated_bytes_field(tag as nat, es.take(j + 1)));
        j += 1;
    }
    assert(es.take(items@.len() as int) =~= es);
}

fn put_opt_translated_string_field(tag: u32, x: &Option<TranslatedString>, buf: &mut Vec<u8>)
    requires
        1 <= tag <= 536870911,
    ensures
        final(buf)@ == old(buf)@ + opt_bytes_field(
            tag as nat,
            match x.deep_view() {
                Some(y) => Some(translated_string_encoded(y)),
                None => None,
            },
        ),
{
    match x {
        Some(y) => put_translated_string_field(tag, y, buf),
        None => {
            assert(buf@ =~= buf@ + Seq::<u8>::empty());
        },
    }
}

fn put_repeated_translation_field(tag: u32, items: &Vec<Translation>, buf: &mut Vec<u8>)
    requires
        1 <= tag <= 536870911,
    ensures
        final(buf)@ == old(buf)@ + repeated_bytes_field(
            tag as nat,
            items.deep_view().map_values(translation_encoder()),
        ),
{
    let ghost b0 = buf@;
    let ghost es = items.deep_view().map_values(translation_encoder());
    let mut j: usize = 0;
    assert(es.take(0) =~= Seq::<Seq<u8>>::empty());
    while j < items.len()
        invariant
            1 <= tag <= 536870911,
            0 <= j <= items@.len(),
            es == items.deep_view().map_values(translation_encoder()),
            buf@ == b0 + repeated_bytes_field(tag as nat, es.take(j as int)),
        decreases items@.len() - j,
    {
        put_translation_field(tag, &items[j], buf);
        assert(es.take(j + 1).drop_last() =~= es.take(j as int));
        assert(es.take(j + 1).last() == es[j as int]);
        assert(buf@ =~= b0 + repeated_bytes_field(tag as nat, es.take(j + 1)));
        j += 1;
    }
    assert(es.take(items@.len() as int) =~= es);
}

fn put_opt_trip_descriptor_field(tag: u32, x: &Option<TripDescriptor>, buf: &mut Vec<u8>)
    requires
        1 <= tag <= 536870911,
    ensures
        final(buf)@ == old(buf)@ + opt_bytes_field(
            tag as nat,
            match x.deep_view() {
                Some(y) => Some(trip_descriptor_encoded(y)),
                None => None,
            },
        ),
{
    match x {
        Some(y) => put_trip_descriptor_field(tag, y, buf),
        None => {
            assert(buf@ =~= buf@ + Seq::<u8>::empty());
        },
    }
}

fn put_trip_descriptor_field(tag: u32, x: &TripDescriptor, buf: &mut Vec<u8>)
    requires
        1 <= tag <= 536870911,
    ensures
        final(buf)@ == old(buf)@ + bytes_field(tag as nat, trip_descriptor_encoded(x.deep_view())),
{
    let mut sub: Vec<u8> = Vec::new();
    encode_trip_descriptor(x, &mut sub);
    assert(sub@ =~= Seq::<u8>::empty() + trip_descriptor_encoded(x.deep_view()));
    put_bytes_field(tag, sub.as_slice(), buf);
}

fn put_opt_trip_modifications_field(tag: u32, x: &Option<TripModifications>, buf: &mut Vec<u8>)
    requires
        1 <= tag <= 536870911,
    ensures
        final(buf)@ == old(buf)@ + opt_bytes_field(
            tag as nat,
            match x.deep_view() {
                Some(y) => Some(trip_modifications_encoded(y)),
                None => None,
            },
        ),
{
    match x {
        Some(y) => put_trip_modifications_field(tag, y, buf),
        None => {
            assert(buf@ =~= buf@ + Seq::<u8>::empty());
        },
    }
}

fn put_opt_trip_update_field(tag: u32, x: &Option<TripUpdate>, buf: &mut Vec<u8>)
    requires
        1 <= tag <= 536870911,
    ensures
        final(buf)@ == old(buf)@ + opt_bytes_field(
            tag as nat,
            match x.deep_view() {
                Some(y) => Some(trip_update_encoded(y)),
                None => None,
            },
        ),
{
    match x {
        Some(y) => put_trip_update_field(tag, y, buf),
        None => {
            assert(buf@ =~= buf@ + Seq::<u8>::empty());
        },
    }
}

fn put_opt_vehicle_descriptor_field(tag: u32, x: &Option<VehicleDescriptor>, buf: &mut Vec<u8>)
    requires
        1 <= tag <= 536870911,
    ensures
        final(buf)@ == old(buf)@ + opt_bytes_field(
            tag as nat,
            match x.deep_view() {
                Some(y) => Some(vehicle_descriptor_encoded(y)),
                None => None,
            },
        ),
{
    match x {
        Some(y) => put_vehicle_descriptor_field(tag, y, buf),
        None => {
            assert(buf@ =~= buf@ + Seq::<u8>::empty());
        },
    }
}

fn put_opt_vehicle_position_field(tag: u32, x: &Option<VehiclePosition>, buf: &mut Vec<u8>)
    requires
        1 <= tag <= 536870911,
    ensures
        final(buf)@ == old(buf)@ + opt_bytes_field(
            tag as nat,
            match x.deep_view() {
                Some(y) => Some(vehicle_position_encoded(y)),
                None => None,
            },
        ),
{
    match x {
        Some(y) => put_vehicle_position_field(tag, y, buf),
        None => {
            assert(buf@ =~= buf@ + Seq::<u8>::empty());
        },
    }
}

fn put_alert_field(tag: u32, x: &Alert, buf: &mut Vec<u8>)
    requires
        1 <= tag <= 536870911,
    ensures
        final(buf)@ == old(buf)@ + bytes_field(tag as nat, alert_encoded(x.deep_view())),
{
    let mut sub: Vec<u8> = Vec::new();
    encode_alert(x, &mut sub);
    assert(sub@ =~= Seq::<u8>::empty() + alert_encoded(x.deep_view()));
    put_bytes_field(tag, sub.as_slice(), buf);
}

fn put_entity_selector_field(tag: u32, x: &EntitySelector, buf: &mut Vec<u8>)
    requires
        1 <= tag <= 536870911,
    ensures
        final(buf)@ == old(buf)@ + bytes_field(tag as nat, entity_selector_encoded(x.deep_view())),
{
    let mut sub: Vec<u8> = Vec::new();
    encode_entity_selector(x, &mut sub);
    assert(sub@ =~= Seq::<u8>::empty() + entity_selector_encoded(x.deep_view()));
    put_bytes_field(tag, sub.as_slice(), buf);
}

fn put_feed_entity_field(tag: u32, x: &FeedEntity, buf: &mut Vec<u8>)
    requires
        1 <= tag <= 536870911,
    ensures
        final(buf)@ == old(buf)@ + bytes_field(tag as nat, feed_entity_encoded(x.deep_view())),
{
    let mut sub: Vec<u8> = Vec::new();
    encode_feed_entity(x, &mut sub);
    assert(sub@ =~= Seq::<u8>::empty() + feed_entity_encoded(x.deep_view()));
    put_bytes_field(tag, sub.as_slice(), buf);
}

fn put_modification_field(tag: u32, x: &Modification, buf: &mut Vec<u8>)
    requires
        1 <= tag <= 536870911,
    ensures
        final(buf)@ == old(buf)@ + bytes_field(tag as nat, modification_encoded(x.deep_view())),
{
    let mut sub: Vec<u8> = Vec::new();
    encode_modification(x, &mut sub);
    assert(sub@ =~= Seq::<u8>::empty() + modification_encoded(x.deep_view()));
    put_bytes_field(tag, sub.as_slice(), buf);
}

fn put_modified_trip_selector_field(tag: u32, x: &ModifiedTripSelector, buf: &mut Vec<u8>)
    requires
        1 <= tag <= 536870911,
    ensures
        final(buf)@ == old(buf)@ + bytes_field(tag as nat, modified_trip_selector_encoded(x.deep_view())),
{
    let mut sub: Vec<u8> = Vec::new();
    encode_modified_trip_selector(x, &mut sub);
    assert(sub@ =~= Seq::<u8>::empty() + modified_trip_selector_encoded(x.deep_view()));
    put_bytes_field(tag, sub.as_slice(), buf);
}

fn put_position_field(tag: u32, x: &Position, buf: &mut Vec<u8>)
    requires
        1 <= tag <= 536870911,
    ensures
        final(buf)@ == old(buf)@ + bytes_field(tag as nat, position_encoded(x.deep_view())),
{
    let mut sub: Vec<u8> = Vec::new();
    encode_position(x, &mut sub);
    assert(sub@ =~= Seq::<u8>::empty() + position_encoded(x.deep_view()));
    put_bytes_field(tag, sub.as_slice(), buf);
}

fn put_replacement_stop_field(tag: u32, x: &ReplacementStop, buf: &mut Vec<u8>)
    requires
        1 <= tag <= 536870911,
    ensures
        final(buf)@ == old(buf)@ + bytes_field(tag as nat, replacement_stop_encoded(x.deep_view())),
{
    let mut sub: Vec<u8> = Vec::new();
    encode_replacement_stop(x, &mut sub);
    assert(sub@ =~= Seq::<u8>::empty() + replacement_stop_encoded(x.deep_view()));
    put_bytes_field(tag, sub.as_slice(), buf);
}

fn put_selected_trips_field(tag: u32, x: &SelectedTrips, buf: &mut Vec<u8>)
    requires
        1 <= tag <= 536870911,
    ensures
        final(buf)@ == old(buf)@ + bytes_field(tag as nat, selected_trips_encoded(x.deep_view())),
{
    let mut sub: Vec<u8> = Vec::new();
    encode_selected_trips(x, &mut sub);
    assert(sub@ =~= Seq::<u8>::empty() + selected_trips_encoded(x.deep_view()));
    put_bytes_field(tag, sub.as_slice(), buf);
}

fn put_stop_selector_field(tag: u32, x: &StopSelector, buf: &mut Vec<u8>)
    requires
        1 <= tag <= 536870911,
    ensures
        final(buf)@ == old(buf)@ + bytes_field(tag as nat, stop_selector_encoded(x.deep_view())),
{
    let mut sub: Vec<u8> = Vec::new();
    encode_stop_selector(x, &mut sub);
    assert(sub@ =~= Seq::<u8>::empty() + stop_selector_encoded(x.deep_view()));
    put_bytes_field(tag, sub.as_slice(), buf);
}

fn put_stop_time_event_field(tag: u32, x: &StopTimeEvent, buf: &mut Vec<u8>)
    requires
        1 <= tag <= 536870911,
    ensures
        final(buf)@ == old(buf)@ + bytes_field(tag as nat, stop_time_event_encoded(x.deep_view())),
{
    let mut sub: Vec<u8> = Vec::new();
    encode_stop_time_event(x, &mut sub);
    assert(sub@ =~= Seq::<u8>::empty() + stop_time_event_encoded(x.deep_view()));
    put_bytes_field(tag, sub.as_slice(), buf);
}

fn put_stop_time_update_field(tag: u32, x: &StopTimeUpdate, buf: &mut Vec<u8>)
    requires
        1 <= tag <= 536870911,
    ensures
        final(buf)@ == old(buf)@ + bytes_field(tag as nat, stop_time_update_encoded(x.deep_view())),
{
    let mut sub: Vec<u8> = Vec::new();
    encode_stop_time_update(x, &mut sub);
    assert(sub@ =~= Seq::<u8>::empty() + stop_time_update_encoded(x.deep_view()));
    put_bytes_field(tag, sub.as_slice(), buf);
}

fn put_time_range_field(tag: u32, x: &TimeRange, buf: &mut Vec<u8>)
    requires
        1 <= tag <= 536870911,
    ensures
        final(buf)@ == old(buf)@ + bytes_field(tag as nat, time_range_encoded(x.deep_view())),
{
    let mut sub: Vec<u8> = Vec::new();
    encode_time_range(x, &mut sub);
    assert(sub@ =~= Seq::<u8>::empty() + time_range_encoded(x.deep_view()));
    put_bytes_field(tag, sub.as_slice(), buf);
}

fn put_translated_string_field(tag: u32, x: &TranslatedString, buf: &mut Vec<u8>)
    requires
        1 <= tag <= 536870911,
    ensures
        final(buf)@ == old(buf)@ + bytes_field(tag as nat, translated_string_encoded(x.deep_view())),
{
    let mut sub: Vec<u8> = Vec::new();
    encode_translated_string(x, &mut sub);
    assert(sub@ =~= Seq::<u8>::empty() + translated_string_encoded(x.deep_view()));
    put_bytes_field(tag, sub.as_slice(), buf);
}

fn put_translation_field(tag: u32, x: &Translation, buf: &mut Vec<u8>)
    requires
        1 <= tag <= 536870911,
    ensures
        final(buf)@ == old(buf)@ + bytes_field(tag as nat, translation_encoded(x.deep_view())),
{
    let mut sub: Vec<u8> = Vec::new();
    encode_translation(x, &mut sub);
    assert(sub@ =~= Seq::<u8>::empty() + translation_encoded(x.deep_view()));
    put_bytes_field(tag, sub.as_slice(), buf);
}

fn put_trip_modifications_field(tag: u32, x: &TripModifications, buf: &mut Vec<u8>)
    requires
        1 <= tag <= 536870911,
    ensures
        final(buf)@ == old(buf)@ + bytes_field(tag as nat, trip_modifications_encoded(x.deep_view())),
{
    let mut sub: Vec<u8> = Vec::new();
    encode_trip_modifications(x, &mut sub);
    assert(sub@ =~= Seq::<u8>::empty() + trip_modifications_encoded(x.deep_view()));
    put_bytes_field(tag, sub.as_slice(), buf);
}

fn put_trip_update_field(tag: u32, x: &TripUpdate, buf: &mut Vec<u8>)
    requires
        1 <= tag <= 536870911,
    ensures
        final(buf)@ == old(buf)@ + bytes_field(tag as nat, trip_update_encoded(x.deep_view())),
{
    let mut sub: Vec<u8> = Vec::new();
    encode_trip_update(x, &mut sub);
    assert(sub@ =~= Seq::<u8>::empty() + trip_update_encoded(x.deep_view()));
    put_bytes_field(tag, sub.as_slice(), buf);
}

fn put_vehicle_descriptor_field(tag: u32, x: &VehicleDescriptor, buf: &mut Vec<u8>)
    requires
        1 <= tag <= 536870911,
    ensures
        final(buf)@ == old(buf)@ + bytes_field(tag as nat, vehicle_descriptor_encoded(x.deep_view())),
{
    let mut sub: Vec<u8> = Vec::new();
    encode_vehicle_descriptor(x, &mut sub);
    assert(sub@ =~= Seq::<u8>::empty() + vehicle_descriptor_encoded(x.deep_view()));
    put_bytes_field(tag, sub.as_slice(), buf);
}

fn put_vehicle_position_field(tag: u32, x: &VehiclePosition, buf: &mut Vec<u8>)
    requires
        1 <= tag <= 536870911,
    ensures
        final(buf)@ == old(buf)@ + bytes_field(tag as nat, vehicle_position_encoded(x.deep_view())),
{
    let mut sub: Vec<u8> = Vec::new();
    encode_vehicle_position(x, &mut sub);
    assert(sub@ =~= Seq::<u8>::empty() + vehicle_position_encoded(x.deep_view()));
    put_bytes_field(tag, sub.as_slice(), buf);
}

} // verus!
