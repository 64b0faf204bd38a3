//! Reading back what was written: decoding the wire bytes of a message gives
//! the message again. The proof goes through a list of encoded fields: the
//! encoding of a message is the concatenation of its fields, the wire reader
//! splits that concatenation back into the same fields, and the decoder
//! applies them one by one to an empty message.

use crate::decode::{
    spec_decode_feed, feed_message_applied, feed_message_step, feed_message_merged, feed_header_applied,
    feed_header_step, feed_header_merged, feed_entity_applied, feed_entity_step, feed_entity_merged,
    trip_update_applied, trip_update_step, trip_update_merged, stop_time_event_applied,
    stop_time_event_step, stop_time_event_merged, stop_time_update_applied, stop_time_update_step,
    stop_time_update_merged, vehicle_position_applied, vehicle_position_step,
    vehicle_position_merged, position_applied, position_step, position_merged,
    trip_descriptor_applied, trip_descriptor_step, trip_descriptor_merged,
    modified_trip_selector_applied, modified_trip_selector_step, modified_trip_selector_merged,
    vehicle_descriptor_applied, vehicle_descriptor_step, vehicle_descriptor_merged, alert_applied,
    alert_step, alert_merged, time_range_applied, time_range_step, time_range_merged,
    entity_selector_applied, entity_selector_step, entity_selector_merged,
    translated_string_applied, translated_string_step, translated_string_merged,
    translation_applied, translation_step, translation_merged, trip_modifications_applied,
    trip_modifications_step, trip_modifications_merged, selected_trips_applied, selected_trips_step,
    selected_trips_merged, modification_applied, modification_step, modification_merged,
    stop_selector_applied, stop_selector_step, stop_selector_merged, replacement_stop_applied,
    replacement_stop_step, replacement_stop_merged,
};
use crate::encode::{
    key_bytes, le32_bytes, le64_bytes, repeated_bytes_field, utf8_encoder, lemma_add_assoc,
    string_field, opt_varint_field, fixed32_field, opt_fixed32_field, opt_fixed64_field,
    bytes_field, opt_bytes_field, feed_message_encoded, feed_header_encoded, feed_entity_encoded,
    trip_update_encoded, stop_time_event_encoded, stop_time_update_encoded,
    vehicle_position_encoded, position_encoded, trip_descriptor_encoded,
    modified_trip_selector_encoded, vehicle_descriptor_encoded, alert_encoded, time_range_encoded,
    entity_selector_encoded, translated_string_encoded, translation_encoded,
    trip_modifications_encoded, selected_trips_encoded, modification_encoded, stop_selector_encoded,
    replacement_stop_encoded, feed_message_encoder, feed_header_encoder, feed_entity_encoder,
    trip_update_encoder, stop_time_event_encoder, stop_time_update_encoder,
    vehicle_position_encoder, position_encoder, trip_descriptor_encoder,
    modified_trip_selector_encoder, vehicle_descriptor_encoder, alert_encoder, time_range_encoder,
    entity_selector_encoder, translated_string_encoder, translation_encoder,
    trip_modifications_encoder, selected_trips_encoder, modification_encoder, stop_selector_encoder,
    replacement_stop_encoder,
};
use crate::model::{
    SpecFeedMessage, SpecFeedHeader, SpecFeedEntity, SpecTripUpdate, SpecStopTimeEvent,
    SpecStopTimeUpdate, SpecVehiclePosition, SpecPosition, SpecTripDescriptor,
    SpecModifiedTripSelector, SpecVehicleDescriptor, SpecAlert, SpecTimeRange, SpecEntitySelector,
    SpecTranslatedString, SpecTranslation, SpecTripModifications, SpecSelectedTrips,
    SpecModification, SpecStopSelector, SpecReplacementStop, feed_message_default,
    feed_header_default, feed_entity_default, trip_update_default, stop_time_event_default,
    stop_time_update_default, vehicle_position_default, position_default, trip_descriptor_default,
    modified_trip_selector_default, vehicle_descriptor_default, alert_default, time_range_default,
    entity_selector_default, translated_string_default, translation_default,
    trip_modifications_default, selected_trips_default, modification_default, stop_selector_default,
    replacement_stop_default,
};
use vstd::utf8::{encode_utf8, encode_utf8_decode_utf8, encode_utf8_valid_utf8};
use crate::values::fold_fields;
use crate::raw::{check_fields, check_message, raw_schema, RawKind, SchemaType};
use crate::wire::{
    fields_within, le_u32, le_u64, lemma_field_bounds, lemma_fields_within, lemma_key_len,
    lemma_skip_scalar_bounds, lemma_varint_prefix_len, spec_field, spec_fields, spec_key,
    spec_skip_group, spec_skip_scalar, spec_varint, varint_bytes, varint_prefix, ErrorKind, Field,
    WireValue,
};
use vstd::prelude::*;

verus! {

/// The value of one encoded field.
pub enum Enc {
    Varint(u64),
    Fixed32(u32),
    Fixed64(u64),
    Bytes(Seq<u8>),
}

pub open spec fn wire_type_of(e: Enc) -> nat {
    match e {
        Enc::Varint(_) => 0,
        Enc::Fixed64(_) => 1,
        Enc::Bytes(_) => 2,
        Enc::Fixed32(_) => 5,
    }
}

/// The bytes of a value, after its key.
pub open spec fn enc_value(e: Enc) -> Seq<u8> {
    match e {
        Enc::Varint(v) => varint_bytes(v as nat),
        Enc::Fixed32(v) => le32_bytes(v),
        Enc::Fixed64(v) => le64_bytes(v),
        Enc::Bytes(b) => varint_bytes(b.len()) + b,
    }
}

/// The bytes of one field: its key, then its value.
pub open spec fn enc_field(t: u32, e: Enc) -> Seq<u8> {
    key_bytes(t as nat, wire_type_of(e)) + enc_value(e)
}

/// The bytes of a list of fields, one after the other.
pub open spec fn enc_all(es: Seq<(u32, Enc)>) -> Seq<u8>
    decreases es.len(),
{
    if es.len() == 0 {
        Seq::empty()
    } else {
        enc_field(es[0].0, es[0].1) + enc_all(es.drop_first())
    }
}

/// The field that the wire reader finds for `(t, e)` written at `p`.
pub open spec fn field_at(t: u32, e: Enc, p: nat) -> Field {
    let q = p + key_bytes(t as nat, wire_type_of(e)).len();
    Field {
        tag: t,
        value: match e {
            Enc::Varint(v) => WireValue::Varint(v),
            Enc::Fixed32(v) => WireValue::Fixed32(v),
            Enc::Fixed64(v) => WireValue::Fixed64(v),
            Enc::Bytes(b) => WireValue::Bytes(
                (q + varint_bytes(b.len()).len()) as usize,
                (q + varint_bytes(b.len()).len() + b.len()) as usize,
            ),
        },
    }
}

/// The fields that the wire reader finds for `es` written from `p` on.
pub open spec fn fields_at(es: Seq<(u32, Enc)>, p: nat) -> Seq<Field>
    decreases es.len(),
{
    if es.len() == 0 {
        Seq::empty()
    } else {
        seq![field_at(es[0].0, es[0].1, p)] + fields_at(
            es.drop_first(),
            p + enc_field(es[0].0, es[0].1).len(),
        )
    }
}

/// Field numbers that a key can carry.
pub open spec fn tags_ok(es: Seq<(u32, Enc)>) -> bool {
    forall|i: int| 0 <= i < es.len() ==> 1 <= (#[trigger] es[i]).0 <= 0x1fff_ffff
}

/// One length-delimited field of number `t` for each item, in order.
pub open spec fn bytes_items(t: u32, bs: Seq<Seq<u8>>) -> Seq<(u32, Enc)> {
    bs.map_values(|b: Seq<u8>| (t, Enc::Bytes(b)))
}

/// The largest value a varint read with `budget` bytes may have, plus one.
pub open spec fn varint_room(budget: nat) -> nat
    decreases budget,
{
    if budget <= 1 {
        2
    } else {
        128 * varint_room((budget - 1) as nat)
    }
}

proof fn lemma_varint_room_ten()
    ensures
        varint_room(10) == 0x1_0000_0000_0000_0000,
{
    reveal_with_fuel(varint_room, 10);
}

proof fn lemma_varint_read(v: nat, rest: Seq<u8>, budget: nat)
    requires
        1 <= budget,
        v < varint_room(budget),
    ensures
        varint_prefix(varint_bytes(v) + rest, budget) == Some((v, varint_bytes(v).len())),
    decreases budget,
{
    let s = varint_bytes(v) + rest;
    if v < 128 {
        assert(s[0] == v as u8);
    } else {
        assert(budget >= 2);
        assert(s[0] == (v % 128 + 128) as u8);
        assert(s.drop_first() =~= varint_bytes(v / 128) + rest);
        assert(v / 128 < varint_room((budget - 1) as nat));
        lemma_varint_read(v / 128, rest, (budget - 1) as nat);
        assert((s[0] - 128) as nat + 128 * (v / 128) == v);
    }
}

proof fn lemma_varint_at(data: Seq<u8>, p: nat, end: nat, v: nat)
    requires
        v < 0x1_0000_0000_0000_0000,
        p + varint_bytes(v).len() <= end <= data.len(),
        data.subrange(p as int, (p + varint_bytes(v).len()) as int) == varint_bytes(v),
    ensures
        spec_varint(data.subrange(p as int, end as int)) == Some((v, varint_bytes(v).len())),
{
    let n = varint_bytes(v).len();
    assert(data.subrange(p as int, end as int) =~= varint_bytes(v) + data.subrange((p + n) as int, end as int));
    lemma_varint_room_ten();
    lemma_varint_read(v, data.subrange((p + n) as int, end as int), 10);
}

proof fn lemma_le32(v: u32)
    ensures
        le_u32(le32_bytes(v), 0) == v,
{
    let b = le32_bytes(v);
    assert(b[0] == v % 256);
    assert(b[1] == (v / 256) % 256);
    assert(b[2] == (v / 65536) % 256);
    assert(b[3] == v / 16777216);
    assert((v % 256) + 256 * ((v / 256) % 256) + 65536 * ((v / 65536) % 256) + 16777216 * (v
        / 16777216) == v) by (nonlinear_arith);
}

proof fn lemma_le32_at(data: Seq<u8>, q: nat, v: u32)
    requires
        q + 4 <= data.len(),
        data.subrange(q as int, (q + 4) as int) == le32_bytes(v),
    ensures
        le_u32(data, q as int) == v,
{
    lemma_le32(v);
    let b = le32_bytes(v);
    assert(data[q as int] == b[0]);
    assert(data[q + 1int] == b[1]);
    assert(data[q + 2int] == b[2]);
    assert(data[q + 3int] == b[3]);
}

proof fn lemma_le64_at(data: Seq<u8>, q: nat, v: u64)
    requires
        q + 8 <= data.len(),
        data.subrange(q as int, (q + 8) as int) == le64_bytes(v),
    ensures
        le_u64(data, q as int) == v,
{
    let lo = (v % 4294967296) as u32;
    let hi = (v / 4294967296) as u32;
    assert(le64_bytes(v) == le32_bytes(lo) + le32_bytes(hi));
    assert(data.subrange(q as int, (q + 4) as int) =~= le32_bytes(lo)) by {
        assert forall|i: int| 0 <= i < 4 implies data.subrange(q as int, (q + 4) as int)[i] == le32_bytes(lo)[i] by {
            assert(data.subrange(q as int, (q + 8) as int)[i] == le64_bytes(v)[i]);
        }
    }
    assert(data.subrange((q + 4) as int, (q + 8) as int) =~= le32_bytes(hi)) by {
        assert forall|i: int| 0 <= i < 4 implies data.subrange((q + 4) as int, (q + 8) as int)[i] == le32_bytes(hi)[i] by {
            assert(data.subrange(q as int, (q + 8) as int)[4 + i] == le64_bytes(v)[4 + i]);
        }
    }
    lemma_le32_at(data, q, lo);
    lemma_le32_at(data, q + 4, hi);
    assert(lo + 4294967296 * hi == v) by (nonlinear_arith)
        requires
            lo == v % 4294967296,
            hi == v / 4294967296,
    ;
}

/// The wire reader finds the field `(t, e)` where it was written.
#[verifier::rlimit(60)]
#[verifier::spinoff_prover]
pub proof fn lemma_field_read(data: Seq<u8>, p: nat, end: nat, ctx: nat, t: u32, e: Enc)
    requires
        1 <= t <= 0x1fff_ffff,
        p + enc_field(t, e).len() <= end <= data.len() <= usize::MAX,
        data.subrange(p as int, (p + enc_field(t, e).len()) as int) == enc_field(t, e),
    ensures
        spec_field(data, p, end, ctx) == Ok::<_, ErrorKind>(
            (field_at(t, e, p), p + enc_field(t, e).len()),
        ),
        e matches Enc::Bytes(b) ==> ({
            let q = p + key_bytes(t as nat, 2).len() + varint_bytes(b.len()).len();
            data.subrange(q as int, (q + b.len()) as int) == b
        }),
{
    reveal(spec_field);
    let wt = wire_type_of(e);
    let k = t * 8 + wt;
    let kb = key_bytes(t as nat, wt);
    let n = kb.len();
    let ev = enc_value(e);
    let total = enc_field(t, e).len();
    assert(enc_field(t, e) == kb + ev);
    assert(data.subrange(p as int, (p + n) as int) =~= kb) by {
        assert forall|i: int| 0 <= i < n implies data.subrange(p as int, (p + n) as int)[i] == kb[i] by {
            assert(data.subrange(p as int, (p + total) as int)[i] == enc_field(t, e)[i]);
        }
    }
    assert(data.subrange((p + n) as int, (p + total) as int) =~= ev) by {
        assert forall|i: int| 0 <= i < ev.len() implies data.subrange((p + n) as int, (p + total) as int)[i]
            == ev[i] by {
            assert(data.subrange(p as int, (p + total) as int)[n + i] == enc_field(t, e)[n + i]);
        }
    }
    lemma_varint_at(data, p, end, k as nat);
    assert(spec_key(data.subrange(p as int, end as int)) == Some((t, wt as u8, n)));
    let q = p + n;
    match e {
        Enc::Varint(v) => {
            assert(data.subrange(q as int, (q + varint_bytes(v as nat).len()) as int) =~= varint_bytes(
                v as nat,
            ));
            lemma_varint_at(data, q, end, v as nat);
        },
        Enc::Fixed64(v) => {
            assert(data.subrange(q as int, (q + 8) as int) =~= le64_bytes(v));
            lemma_le64_at(data, q, v);
        },
        Enc::Fixed32(v) => {
            assert(data.subrange(q as int, (q + 4) as int) =~= le32_bytes(v));
            lemma_le32_at(data, q, v);
        },
        Enc::Bytes(b) => {
            let lb = varint_bytes(b.len());
            assert(ev == lb + b);
            assert(data.subrange(q as int, (q + lb.len()) as int) =~= lb) by {
                assert forall|i: int| 0 <= i < lb.len() implies data.subrange(q as int, (q + lb.len()) as int)[i] == lb[i] by {
                    assert(data.subrange(q as int, (p + total) as int)[i] == ev[i]);
                }
            }
            lemma_varint_at(data, q, end, b.len());
            let r = q + lb.len();
            assert(data.subrange(r as int, (r + b.len()) as int) =~= b) by {
                assert forall|i: int| 0 <= i < b.len() implies data.subrange(r as int, (r + b.len()) as int)[i]
                    == b[i] by {
                    assert(data.subrange(q as int, (p + total) as int)[lb.len() + i] == ev[lb.len() + i]);
                }
            }
        },
    }
}


proof fn lemma_varint_bytes_len(v: nat)
    ensures
        1 <= varint_bytes(v).len(),
    decreases v,
{
    if v >= 128 {
        lemma_varint_bytes_len(v / 128);
    }
}

/// Where `a + b` lies in `data`, `a` and `b` lie one after the other.
pub proof fn lemma_subrange_split(data: Seq<u8>, p: nat, a: Seq<u8>, b: Seq<u8>)
    requires
        p + a.len() + b.len() <= data.len(),
        data.subrange(p as int, (p + a.len() + b.len()) as int) == a + b,
    ensures
        data.subrange(p as int, (p + a.len()) as int) == a,
        data.subrange((p + a.len()) as int, (p + a.len() + b.len()) as int) == b,
{
    assert(data.subrange(p as int, (p + a.len()) as int) =~= a) by {
        assert forall|i: int| 0 <= i < a.len() implies data.subrange(p as int, (p + a.len()) as int)[i] == a[i] by {
            assert(data.subrange(p as int, (p + a.len() + b.len()) as int)[i] == (a + b)[i]);
        }
    }
    assert(data.subrange((p + a.len()) as int, (p + a.len() + b.len()) as int) =~= b) by {
        assert forall|i: int| 0 <= i < b.len() implies data.subrange((p + a.len()) as int, (p + a.len() + b.len()) as int)[i] == b[i] by {
            assert(data.subrange(p as int, (p + a.len() + b.len()) as int)[a.len() + i] == (a + b)[a.len() + i]);
            assert((a + b)[a.len() + i] == b[i]);
        }
    }
}

/// The wire reader splits the bytes of `es` back into their fields.
pub proof fn lemma_fields_read(data: Seq<u8>, p: nat, es: Seq<(u32, Enc)>, ctx: nat)
    requires
        tags_ok(es),
        p + enc_all(es).len() <= data.len() <= usize::MAX,
        data.subrange(p as int, (p + enc_all(es).len()) as int) == enc_all(es),
    ensures
        spec_fields(data, p, p + enc_all(es).len(), ctx) == Ok::<_, ErrorKind>(fields_at(es, p)),
    decreases es.len(),
{
    if es.len() > 0 {
        let t = es[0].0;
        let e = es[0].1;
        let f = enc_field(t, e);
        let rest = es.drop_first();
        let end = p + enc_all(es).len();
        assert(enc_all(es) == f + enc_all(rest));
        lemma_subrange_split(data, p, f, enc_all(rest));
        assert(1 <= es[0].0 <= 0x1fff_ffff);
        lemma_varint_bytes_len((t as nat) * 8 + wire_type_of(e));
        lemma_field_read(data, p, end, ctx, t, e);
        assert(tags_ok(rest)) by {
            assert forall|i: int| 0 <= i < rest.len() implies 1 <= (#[trigger] rest[i]).0 <= 0x1fff_ffff by {
                assert(rest[i] == es[i + 1]);
            }
        }
        lemma_fields_read(data, p + f.len(), rest, ctx);
    }
}

pub proof fn lemma_fold_add<T>(
    a: Seq<Field>,
    b: Seq<Field>,
    init: T,
    step: spec_fn(T, Field) -> Result<T, ErrorKind>,
)
    ensures
        fold_fields(a + b, init, step) == match fold_fields(a, init, step) {
            Ok(t) => fold_fields(b, t, step),
            Err(x) => Err(x),
        },
    decreases a.len(),
{
    if a.len() == 0 {
        assert(a + b =~= b);
    } else {
        assert((a + b).drop_first() =~= a.drop_first() + b);
        assert((a + b)[0] == a[0]);
        match step(init, a[0]) {
            Ok(t) => lemma_fold_add(a.drop_first(), b, t, step),
            Err(_) => {},
        }
    }
}

pub proof fn lemma_fold_single<T>(f: Field, init: T, step: spec_fn(T, Field) -> Result<T, ErrorKind>)
    ensures
        fold_fields(seq![f], init, step) == step(init, f),
{
    assert(seq![f].drop_first() =~= Seq::<Field>::empty());
    assert(seq![f][0] == f);
    reveal_with_fuel(fold_fields, 2);
}

pub proof fn lemma_enc_add(a: Seq<(u32, Enc)>, b: Seq<(u32, Enc)>, p: nat)
    ensures
        enc_all(a + b) == enc_all(a) + enc_all(b),
        fields_at(a + b, p) == fields_at(a, p) + fields_at(b, p + enc_all(a).len()),
        tags_ok(a) && tags_ok(b) ==> tags_ok(a + b),
    decreases a.len(),
{
    if a.len() == 0 {
        assert(a + b =~= b);
        assert(enc_all(a) + enc_all(b) =~= enc_all(b));
        assert(fields_at(a, p) + fields_at(b, p) =~= fields_at(b, p));
    } else {
        let x = a[0];
        assert((a + b).drop_first() =~= a.drop_first() + b);
        assert((a + b)[0] == x);
        lemma_enc_add(a.drop_first(), b, p + enc_field(x.0, x.1).len());
        assert(enc_all(a + b) =~= enc_all(a) + enc_all(b));
        assert(fields_at(a + b, p) =~= fields_at(a, p) + fields_at(b, p + enc_all(a).len()));
    }
    if tags_ok(a) && tags_ok(b) {
        assert forall|i: int| 0 <= i < (a + b).len() implies 1 <= (#[trigger] (a + b)[i]).0 <= 0x1fff_ffff by {
            if i < a.len() {
                assert((a + b)[i] == a[i]);
            } else {
                assert((a + b)[i] == b[i - a.len()]);
            }
        }
    }
}

pub proof fn lemma_enc_single(t: u32, e: Enc, p: nat)
    ensures
        enc_all(seq![(t, e)]) == enc_field(t, e),
        fields_at(seq![(t, e)], p) == seq![field_at(t, e, p)],
        1 <= t <= 0x1fff_ffff ==> tags_ok(seq![(t, e)]),
{
    let s = seq![(t, e)];
    assert(s.drop_first() =~= Seq::<(u32, Enc)>::empty());
    reveal_with_fuel(enc_all, 2);
    reveal_with_fuel(fields_at, 2);
    assert(enc_all(s) =~= enc_field(t, e));
    assert(fields_at(s, p) =~= seq![field_at(t, e, p)]);
}

pub proof fn lemma_bytes_items(t: u32, bs: Seq<Seq<u8>>)
    ensures
        1 <= t <= 0x1fff_ffff ==> tags_ok(bytes_items(t, bs)),
        enc_all(bytes_items(t, bs)) == repeated_bytes_field(t as nat, bs),
        bs.len() > 0 ==> bytes_items(t, bs) == seq![(t, Enc::Bytes(bs[0]))] + bytes_items(t, bs.drop_first()),
    decreases bs.len(),
{
    if bs.len() > 0 {
        assert(bytes_items(t, bs) =~= seq![(t, Enc::Bytes(bs[0]))] + bytes_items(t, bs.drop_first()));
        let init = bs.drop_last();
        assert(bytes_items(t, bs) =~= bytes_items(t, init) + seq![(t, Enc::Bytes(bs.last()))]);
        lemma_bytes_items(t, init);
        lemma_enc_add(bytes_items(t, init), seq![(t, Enc::Bytes(bs.last()))], 0);
        lemma_enc_single(t, Enc::Bytes(bs.last()), 0);
    } else {
        assert(bytes_items(t, bs) =~= Seq::<(u32, Enc)>::empty());
    }
}


proof fn lemma_i32_wire(v: i32)
    ensures
        (v as u64) as i32 == v,
{
    assert((v as u64) as i32 == v) by (bit_vector);
}

proof fn lemma_i64_wire(v: i64)
    ensures
        (v as u64) as i64 == v,
{
    assert((v as u64) as i64 == v) by (bit_vector);
}


/// The fields of the first `k` items come first among the fields of all.
pub proof fn lemma_repeated_prefix(t: nat, bs: Seq<Seq<u8>>, k: nat)
    requires
        k <= bs.len(),
    ensures
        repeated_bytes_field(t, bs).take(repeated_bytes_field(t, bs.take(k as int)).len() as int)
            == repeated_bytes_field(t, bs.take(k as int)),
        repeated_bytes_field(t, bs.take(k as int)).len() <= repeated_bytes_field(t, bs).len(),
    decreases bs.len(),
{
    if k == bs.len() {
        assert(bs.take(k as int) =~= bs);
        assert(repeated_bytes_field(t, bs).take(repeated_bytes_field(t, bs).len() as int)
            =~= repeated_bytes_field(t, bs));
    } else {
        let init = bs.drop_last();
        assert(init.take(k as int) =~= bs.take(k as int));
        lemma_repeated_prefix(t, init, k);
        let whole = repeated_bytes_field(t, bs);
        let front = repeated_bytes_field(t, init);
        let part = repeated_bytes_field(t, bs.take(k as int));
        assert(whole == front + bytes_field(t, bs.last()));
        assert(whole.take(part.len() as int) =~= front.take(part.len() as int));
    }
}

/// A feed cut right after one of its entities reads as the feed of the
/// entities before the cut.
pub proof fn lemma_truncated_feed(m: SpecFeedMessage, k: nat)
    requires
        feed_message_raw_ok(m, 100),
        k <= m.entity.len(),
        feed_message_encoded(m).len() <= usize::MAX,
    ensures
        ({
            let cut = SpecFeedMessage { entity: m.entity.take(k as int), ..m };
            spec_decode_feed(feed_message_encoded(m).take(feed_message_encoded(cut).len() as int))
                == Ok::<SpecFeedMessage, ErrorKind>(cut)
        }),
{
    let cut = SpecFeedMessage { entity: m.entity.take(k as int), ..m };
    reveal(feed_message_encoded);
    let head = bytes_field(1, feed_header_encoded(m.header));
    let all = m.entity.map_values(feed_entity_encoder());
    assert(cut.entity.map_values(feed_entity_encoder()) =~= all.take(k as int));
    lemma_repeated_prefix(2, all, k);
    let whole = feed_message_encoded(m);
    let part = feed_message_encoded(cut);
    assert(whole == head + repeated_bytes_field(2, all));
    assert(part == head + repeated_bytes_field(2, all.take(k as int)));
    assert(whole.take(part.len() as int) =~= part);
    assert(feed_message_raw_ok(cut, 100));
    lemma_decode_encoded(cut);
}


/// A field read from a window of the data, seen from the whole data: its
/// length-delimited value moves by the window's start.
pub open spec fn shift_field(f: Field, s: nat) -> Field {
    Field {
        tag: f.tag,
        value: match f.value {
            WireValue::Bytes(a, b) => WireValue::Bytes((a + s) as usize, (b + s) as usize),
            v => v,
        },
    }
}

pub open spec fn shift_fields(fs: Seq<Field>, s: nat) -> Seq<Field> {
    fs.map_values(|f: Field| shift_field(f, s))
}

proof fn lemma_window_subrange(data: Seq<u8>, s: nat, t: nat, p: nat, e: nat)
    requires
        s <= p <= e <= t <= data.len(),
    ensures
        data.subrange(p as int, e as int) == data.subrange(s as int, t as int).subrange((p - s) as int, (e - s) as int),
{
    assert(data.subrange(p as int, e as int) =~= data.subrange(s as int, t as int).subrange((p - s) as int, (e - s) as int));
}

proof fn lemma_skip_scalar_shift(data: Seq<u8>, s: nat, t: nat, p: nat, e: nat, wt: u8)
    requires
        s <= p <= e <= t <= data.len(),
    ensures
        spec_skip_scalar(data, p, e, wt) == match spec_skip_scalar(
            data.subrange(s as int, t as int),
            (p - s) as nat,
            (e - s) as nat,
            wt,
        ) {
            Ok(q) => Ok::<nat, ErrorKind>(q + s),
            Err(x) => Err(x),
        },
{
    lemma_window_subrange(data, s, t, p, e);
}

proof fn lemma_skip_group_shift(data: Seq<u8>, s: nat, t: nat, p: nat, e: nat, stack: Seq<u32>, c: nat)
    requires
        s <= p <= e <= t <= data.len(),
    ensures
        spec_skip_group(data, p, e, stack, c) == match spec_skip_group(
            data.subrange(s as int, t as int),
            (p - s) as nat,
            (e - s) as nat,
            stack,
            c,
        ) {
            Ok(q) => Ok::<nat, ErrorKind>(q + s),
            Err(x) => Err(x),
        },
    decreases e - p,
{
    let d2 = data.subrange(s as int, t as int);
    if p < e {
        lemma_window_subrange(data, s, t, p, e);
        let w = data.subrange(p as int, e as int);
        lemma_key_len(w);
        if let Some((tag, wt, n)) = spec_key(w) {
            let q = p + n;
            let d = stack.len();
            if wt == 4 {
                if d > 1 && tag == stack.last() {
                    lemma_skip_group_shift(data, s, t, q, e, stack.drop_last(), c);
                }
            } else if c > d {
                if wt == 3 {
                    lemma_skip_group_shift(data, s, t, q, e, stack.push(tag), c);
                } else {
                    lemma_skip_scalar_shift(data, s, t, q, e, wt);
                    lemma_skip_scalar_bounds(data, q, e, wt);
                    if let Ok(r) = spec_skip_scalar(data, q, e, wt) {
                        lemma_skip_group_shift(data, s, t, r, e, stack, c);
                    }
                }
            }
        }
    }
}

proof fn lemma_le_shift(data: Seq<u8>, s: nat, t: nat, q: nat, n: nat)
    requires
        s <= q,
        q + n <= t <= data.len(),
        n == 4 || n == 8,
    ensures
        n == 4 ==> le_u32(data, q as int) == le_u32(data.subrange(s as int, t as int), q - s),
        n == 8 ==> le_u64(data, q as int) == le_u64(data.subrange(s as int, t as int), q - s),
{
    let d2 = data.subrange(s as int, t as int);
    assert(forall|i: int| 0 <= i < n ==> data[q + i] == #[trigger] d2[q - s + i]);
    assert(data[q as int] == d2[q - s]);
    assert(data[q + 1int] == d2[q - s + 1]);
    assert(data[q + 2int] == d2[q - s + 2]);
    assert(data[q + 3int] == d2[q - s + 3]);
    if n == 8 {
        assert(data[q + 4int] == d2[q - s + 4]);
        assert(data[q + 5int] == d2[q - s + 5]);
        assert(data[q + 6int] == d2[q - s + 6]);
        assert(data[q + 7int] == d2[q - s + 7]);
    }
}

#[verifier::rlimit(60)]
proof fn lemma_field_shift(data: Seq<u8>, s: nat, t: nat, p: nat, e: nat, c: nat)
    requires
        s <= p < e <= t <= data.len() <= usize::MAX,
    ensures
        spec_field(data, p, e, c) == match spec_field(
            data.subrange(s as int, t as int),
            (p - s) as nat,
            (e - s) as nat,
            c,
        ) {
            Ok((f, q)) => Ok::<(Field, nat), ErrorKind>((shift_field(f, s), q + s)),
            Err(x) => Err(x),
        },
{
    reveal(spec_field);
    let d2 = data.subrange(s as int, t as int);
    lemma_window_subrange(data, s, t, p, e);
    let w = data.subrange(p as int, e as int);
    lemma_key_len(w);
    if let Some((tag, wt, n)) = spec_key(w) {
        let q = p + n;
        lemma_window_subrange(data, s, t, q, e);
        lemma_varint_prefix_len(data.subrange(q as int, e as int), 10);
        if wt == 1 && e - q >= 8 {
            lemma_le_shift(data, s, t, q, 8);
        } else if wt == 5 && e - q >= 4 {
            lemma_le_shift(data, s, t, q, 4);
        } else if wt == 3 && c > 0 {
            lemma_skip_group_shift(data, s, t, q, e, seq![tag], c);
        }
    }
}

proof fn lemma_fields_shift(data: Seq<u8>, s: nat, t: nat, p: nat, e: nat, c: nat)
    requires
        s <= p,
        s <= e <= t <= data.len() <= usize::MAX,
    ensures
        spec_fields(data, p, e, c) == match spec_fields(
            data.subrange(s as int, t as int),
            (p - s) as nat,
            (e - s) as nat,
            c,
        ) {
            Ok(fs) => Ok::<Seq<Field>, ErrorKind>(shift_fields(fs, s)),
            Err(x) => Err(x),
        },
    decreases e - p,
{
    let d2 = data.subrange(s as int, t as int);
    if p < e {
        lemma_field_shift(data, s, t, p, e, c);
        lemma_field_bounds(data, p, e, c);
        if let Ok((f, q)) = spec_field(data, p, e, c) {
            lemma_fields_shift(data, s, t, q, e, c);
            if let Ok(rest) = spec_fields(d2, (q - s) as nat, (e - s) as nat, c) {
                let f2 = spec_field(d2, (p - s) as nat, (e - s) as nat, c)->Ok_0.0;
                assert(shift_fields(seq![f2] + rest, s) =~= seq![shift_field(f2, s)] + shift_fields(
                    rest,
                    s,
                ));
            }
        }
    } else {
        assert(shift_fields(Seq::<Field>::empty(), s) =~= Seq::<Field>::empty());
    }
}

proof fn lemma_check_shift(data: Seq<u8>, s: nat, t: nat, k: RawKind, p: nat, e: nat, c: nat)
    requires
        s <= p <= e <= t <= data.len() <= usize::MAX,
    ensures
        check_message(data, k, p, e, c) == check_message(
            data.subrange(s as int, t as int),
            k,
            (p - s) as nat,
            (e - s) as nat,
            c,
        ),
    decreases c, 0nat, 0nat,
{
    let d2 = data.subrange(s as int, t as int);
    if c > 0 {
        lemma_fields_shift(data, s, t, p, e, (c - 1) as nat);
        lemma_fields_within(d2, (p - s) as nat, (e - s) as nat, (c - 1) as nat);
        if let Ok(fs) = spec_fields(d2, (p - s) as nat, (e - s) as nat, (c - 1) as nat) {
            lemma_check_fields_shift(data, s, t, k, fs, (c - 1) as nat);
        }
    }
}

proof fn lemma_check_fields_shift(data: Seq<u8>, s: nat, t: nat, k: RawKind, fs: Seq<Field>, c: nat)
    requires
        s <= t <= data.len() <= usize::MAX,
        fields_within(fs, 0, (t - s) as nat),
    ensures
        check_fields(data, k, shift_fields(fs, s), c) == check_fields(
            data.subrange(s as int, t as int),
            k,
            fs,
            c,
        ),
    decreases c, 1nat, fs.len(),
{
    let d2 = data.subrange(s as int, t as int);
    if fs.len() > 0 {
        let g = shift_fields(fs, s);
        assert(g[0] == shift_field(fs[0], s));
        assert(g.drop_first() =~= shift_fields(fs.drop_first(), s));
        assert(fields_within(fs.drop_first(), 0, (t - s) as nat)) by {
            assert forall|i: int| 0 <= i < fs.drop_first().len() implies (#[trigger] fs.drop_first()[i].value matches WireValue::Bytes(
                a,
                b,
            ) ==> 0 <= a <= b <= t - s) by {
                assert(fs.drop_first()[i] == fs[i + 1]);
            }
        }
        assert(fs[0].value matches WireValue::Bytes(a, b) ==> 0 <= a <= b <= t - s);
        if let WireValue::Bytes(a, b) = fs[0].value {
            lemma_window_subrange(data, s, t, (a + s) as nat, (b + s) as nat);
            lemma_check_shift(data, s, t, raw_kind_at(k, fs[0].tag), (a + s) as nat, (b + s) as nat, c);
        }
        lemma_check_fields_shift(data, s, t, k, fs.drop_first(), c);
    }
}

/// The kind of the message a field of a `k` holds, if it holds one.
pub open spec fn raw_kind_at(k: RawKind, tag: u32) -> RawKind {
    match raw_schema(k, tag) {
        Some(SchemaType::Message(k2)) => k2,
        _ => k,
    }
}

/// `b`, checked as a message of kind `k` with budget `c`, passes the check.
pub open spec fn raw_ok(k: RawKind, b: Seq<u8>, c: nat) -> bool {
    check_message(b, k, 0, b.len(), c) is Ok
}

/// Where the bytes of `b` lie in `data`, checking them there is checking `b`.
pub proof fn lemma_check_in_place(data: Seq<u8>, a: nat, b: Seq<u8>, k: RawKind, c: nat)
    requires
        a + b.len() <= data.len() <= usize::MAX,
        data.subrange(a as int, (a + b.len()) as int) == b,
    ensures
        check_message(data, k, a, a + b.len(), c) == check_message(b, k, 0, b.len(), c),
{
    lemma_check_shift(data, a, a + b.len(), k, a, a + b.len(), c);
}

/// Every part of a `FeedMessage` kept as raw bytes, at any depth, passes the
/// check that decoding gives it when the fields of the `FeedMessage` are read
/// with budget `c`.
pub open spec fn feed_message_raw_ok(m: SpecFeedMessage, c: nat) -> bool {
    feed_header_raw_ok(m.header, (c - 1) as nat)
    && (forall|i: int| 0 <= i < m.entity.len() ==> feed_entity_raw_ok(#[trigger] m.entity[i], (c - 1) as nat))
}

/// Field `header` of a `FeedMessage` as it is written.
#[verifier::opaque]
pub open spec fn feed_message_header_part(m: SpecFeedMessage) -> Seq<(u32, Enc)> {
    seq![(1u32, Enc::Bytes(feed_header_encoded(m.header)))]
}

/// Field `entity` of a `FeedMessage` as it is written.
#[verifier::opaque]
pub open spec fn feed_message_entity_part(m: SpecFeedMessage) -> Seq<(u32, Enc)> {
    bytes_items(2u32, m.entity.map_values(feed_entity_encoder()))
}

/// The fields of a `FeedMessage` as they are written.
pub open spec fn feed_message_encs(m: SpecFeedMessage) -> Seq<(u32, Enc)> {
    feed_message_header_part(m) + (feed_message_entity_part(m))
}

proof fn lemma_feed_message_encs(m: SpecFeedMessage)
    ensures
        feed_message_encoded(m) == enc_all(feed_message_encs(m)),
        tags_ok(feed_message_encs(m)),
{
    reveal(feed_message_encoded);
    let p0 = feed_message_header_part(m);
    let b0 = bytes_field(1, feed_header_encoded(m.header));
    assert(enc_all(p0) == b0 && tags_ok(p0)) by {
        reveal(feed_message_header_part);
        lemma_enc_single(1u32, Enc::Bytes(feed_header_encoded(m.header)), 0);
        assert(enc_all(p0) =~= b0);
    }
    let p1 = feed_message_entity_part(m);
    let b1 = repeated_bytes_field(2, m.entity.map_values(feed_entity_encoder()));
    assert(enc_all(p1) == b1 && tags_ok(p1)) by {
        reveal(feed_message_entity_part);
        lemma_bytes_items(2u32, m.entity.map_values(feed_entity_encoder()));
    }
    let r1 = p1;
    let s1 = b1;
    let r0 = p0 + r1;
    let s0 = b0 + s1;
    lemma_enc_add(p0, r1, 0);
    let l0 = b0;
    let l1 = l0 + b1;
    assert(l0 + s1 == s0);
    assert(feed_message_encoded(m) == l1);
    assert(feed_message_encs(m) == r0);
}

proof fn lemma_feed_message_entity_items(data: Seq<u8>, q: nat, items: Seq<SpecFeedEntity>, mp: SpecFeedMessage, c: nat)
    requires
        forall|i: int| 0 <= i < items.len() ==> feed_entity_raw_ok(#[trigger] items[i], (c - 1) as nat),
        c >= 5,
        q + enc_all(bytes_items(2u32, items.map_values(feed_entity_encoder()))).len() <= data.len() <= usize::MAX,
        data.subrange(q as int, (q + enc_all(bytes_items(2u32, items.map_values(feed_entity_encoder()))).len()) as int) == enc_all(bytes_items(2u32, items.map_values(feed_entity_encoder()))),
    ensures
        fold_fields(fields_at(bytes_items(2u32, items.map_values(feed_entity_encoder())), q), mp, feed_message_step(data, c)) == Ok::<SpecFeedMessage, ErrorKind>(
            SpecFeedMessage { entity: mp.entity + items, ..mp },
        ),
    decreases items.len(),
{
    let bs = items.map_values(feed_entity_encoder());
    let es = bytes_items(2u32, bs);
    if items.len() == 0 {
        assert(es =~= Seq::<(u32, Enc)>::empty());
        assert(mp.entity + items =~= mp.entity);
    } else {
        lemma_bytes_items(2u32, bs);
        let head = seq![(2u32, Enc::Bytes(bs[0]))];
        let rest_items = items.drop_first();
        assert(bs.drop_first() =~= rest_items.map_values(feed_entity_encoder()));
        let rest = bytes_items(2u32, rest_items.map_values(feed_entity_encoder()));
        lemma_enc_add(head, rest, q);
        lemma_enc_single(2u32, Enc::Bytes(bs[0]), q);
        lemma_subrange_split(data, q, enc_all(head), enc_all(rest));
        lemma_field_read(data, q, q + enc_all(head).len(), c, 2u32, Enc::Bytes(bs[0]));
        let fd = field_at(2u32, Enc::Bytes(bs[0]), q);
        lemma_fold_add(seq![fd], fields_at(rest, q + enc_all(head).len()), mp, feed_message_step(data, c));
        lemma_fold_single(fd, mp, feed_message_step(data, c));
        reveal(feed_message_applied);
        let a = q + key_bytes(2nat, 2).len() + varint_bytes(bs[0].len()).len();
        lemma_feed_entity_decoded(data, a, items[0], c);
        let m1 = SpecFeedMessage { entity: mp.entity.push(items[0]), ..mp };
        assert(feed_message_applied(data, fd, mp, c) == Ok::<SpecFeedMessage, ErrorKind>(m1));
        lemma_feed_message_entity_items(data, q + enc_all(head).len(), rest_items, m1, c);
        assert(m1.entity + rest_items =~= mp.entity + items);
    }
}

proof fn lemma_feed_message_header_read(data: Seq<u8>, q: nat, m: SpecFeedMessage, c: nat)
    requires
        feed_message_raw_ok(m, c),
        c + 1 >= 6,
        q + enc_all(feed_message_header_part(m)).len() <= data.len() <= usize::MAX,
        data.subrange(q as int, (q + enc_all(feed_message_header_part(m)).len()) as int) == enc_all(feed_message_header_part(m)),
    ensures
        fold_fields(fields_at(feed_message_header_part(m), q), feed_message_default(), feed_message_step(data, c)) == Ok::<SpecFeedMessage, ErrorKind>(
            SpecFeedMessage { header: m.header, ..feed_message_default() },
        ),
{
    let p0 = feed_message_header_part(m);
    let q0 = q;
    let step = feed_message_step(data, c);
    let m0 = feed_message_default();
    let m1 = SpecFeedMessage { header: m.header, ..feed_message_default() };
    reveal(feed_message_header_part);
    lemma_enc_single(1u32, Enc::Bytes(feed_header_encoded(m.header)), q0);
    lemma_field_read(data, q0, q0 + enc_all(p0).len(), c, 1u32, Enc::Bytes(feed_header_encoded(m.header)));
    lemma_fold_single(field_at(1u32, Enc::Bytes(feed_header_encoded(m.header)), q0), m0, step);
    reveal(feed_message_applied);
    let a = q0 + key_bytes(1nat, 2).len() + varint_bytes(feed_header_encoded(m.header).len()).len();
    lemma_feed_header_decoded(data, a, m.header, c);
    assert(feed_message_applied(data, field_at(1u32, Enc::Bytes(feed_header_encoded(m.header)), q0), m0, c) == Ok::<SpecFeedMessage, ErrorKind>(m1));
}

proof fn lemma_feed_message_entity_read(data: Seq<u8>, q: nat, m: SpecFeedMessage, c: nat)
    requires
        feed_message_raw_ok(m, c),
        c + 1 >= 6,
        q + enc_all(feed_message_entity_part(m)).len() <= data.len() <= usize::MAX,
        data.subrange(q as int, (q + enc_all(feed_message_entity_part(m)).len()) as int) == enc_all(feed_message_entity_part(m)),
    ensures
        fold_fields(fields_at(feed_message_entity_part(m), q), SpecFeedMessage { header: m.header, ..feed_message_default() }, feed_message_step(data, c)) == Ok::<SpecFeedMessage, ErrorKind>(
            SpecFeedMessage { header: m.header, entity: m.entity, ..feed_message_default() },
        ),
{
    let p1 = feed_message_entity_part(m);
    let q1 = q;
    let step = feed_message_step(data, c);
    let m1 = SpecFeedMessage { header: m.header, ..feed_message_default() };
    let m2 = SpecFeedMessage { header: m.header, entity: m.entity, ..feed_message_default() };
    reveal(feed_message_entity_part);
    lemma_feed_message_entity_items(data, q1, m.entity, m1, c);
    assert(m1.entity + m.entity =~= m.entity);
}

proof fn lemma_feed_message_fold(data: Seq<u8>, s: nat, m: SpecFeedMessage, c: nat)
    requires
        feed_message_raw_ok(m, c),
        c + 1 >= 6,
        s + enc_all(feed_message_encs(m)).len() <= data.len() <= usize::MAX,
        data.subrange(s as int, (s + enc_all(feed_message_encs(m)).len()) as int) == enc_all(feed_message_encs(m)),
    ensures
        fold_fields(fields_at(feed_message_encs(m), s), feed_message_default(), feed_message_step(data, c)) == Ok::<
            SpecFeedMessage,
            ErrorKind,
        >(m),
{
    let es = feed_message_encs(m);
    let step = feed_message_step(data, c);
    let p0 = feed_message_header_part(m);
    let p1 = feed_message_entity_part(m);
    let r1 = p1;
    let r0 = p0 + r1;
    assert(es == r0);
    let m0 = feed_message_default();
    let q0 = s;
    let m1 = SpecFeedMessage { header: m.header, ..feed_message_default() };
    let q1 = q0 + enc_all(p0).len();
    assert(fold_fields(fields_at(r0, q0), m0, step) == fold_fields(fields_at(r1, q1), m1, step)
        && q1 + enc_all(r1).len() <= data.len()
        && data.subrange(q1 as int, (q1 + enc_all(r1).len()) as int) == enc_all(r1)) by {
        lemma_enc_add(p0, r1, q0);
        lemma_subrange_split(data, q0, enc_all(p0), enc_all(r1));
        lemma_fold_add(fields_at(p0, q0), fields_at(r1, q1), m0, step);
        lemma_feed_message_header_read(data, q0, m, c);
    }
    let m2 = SpecFeedMessage { header: m.header, entity: m.entity, ..feed_message_default() };
    let q2 = q1 + enc_all(p1).len();
    lemma_feed_message_entity_read(data, q1, m, c);
    assert(m2 == m);
}

/// Decoding the bytes of a `FeedMessage` gives it back.
pub proof fn lemma_feed_message_decoded(data: Seq<u8>, s: nat, m: SpecFeedMessage, ctx: nat)
    requires
        feed_message_raw_ok(m, (ctx - 1) as nat),
        ctx >= 6,
        s + feed_message_encoded(m).len() <= data.len() <= usize::MAX,
        data.subrange(s as int, (s + feed_message_encoded(m).len()) as int) == feed_message_encoded(m),
    ensures
        feed_message_merged(data, s, s + feed_message_encoded(m).len(), ctx, feed_message_default()) == Ok::<
            SpecFeedMessage,
            ErrorKind,
        >(m),
{
    lemma_feed_message_encs(m);
    lemma_fields_read(data, s, feed_message_encs(m), (ctx - 1) as nat);
    lemma_feed_message_fold(data, s, m, (ctx - 1) as nat);
}

/// Every part of a `FeedHeader` kept as raw bytes, at any depth, passes the
/// check that decoding gives it when the fields of the `FeedHeader` are read
/// with budget `c`.
pub open spec fn feed_header_raw_ok(m: SpecFeedHeader, c: nat) -> bool {
    true
}

/// Field `gtfs_realtime_version` of a `FeedHeader` as it is written.
#[verifier::opaque]
pub open spec fn feed_header_gtfs_realtime_version_part(m: SpecFeedHeader) -> Seq<(u32, Enc)> {
    seq![(1u32, Enc::Bytes(encode_utf8(m.gtfs_realtime_version)))]
}

/// Field `incrementality` of a `FeedHeader` as it is written.
#[verifier::opaque]
pub open spec fn feed_header_incrementality_part(m: SpecFeedHeader) -> Seq<(u32, Enc)> {
    match m.incrementality {
        Some(x) => seq![(2u32, Enc::Varint(x as u64))],
        None => Seq::empty(),
    }
}

/// Field `timestamp` of a `FeedHeader` as it is written.
#[verifier::opaque]
pub open spec fn feed_header_timestamp_part(m: SpecFeedHeader) -> Seq<(u32, Enc)> {
    match m.timestamp {
        Some(x) => seq![(3u32, Enc::Varint(x))],
        None => Seq::empty(),
    }
}

/// Field `feed_version` of a `FeedHeader` as it is written.
#[verifier::opaque]
pub open spec fn feed_header_feed_version_part(m: SpecFeedHeader) -> Seq<(u32, Enc)> {
    match m.feed_version {
        Some(x) => seq![(4u32, Enc::Bytes(encode_utf8(x)))],
        None => Seq::empty(),
    }
}

/// The fields of a `FeedHeader` as they are written.
pub open spec fn feed_header_encs(m: SpecFeedHeader) -> Seq<(u32, Enc)> {
    feed_header_gtfs_realtime_version_part(m) + (feed_header_incrementality_part(m) + (feed_header_timestamp_part(m) + (feed_header_feed_version_part(m))))
}

proof fn lemma_feed_header_encs(m: SpecFeedHeader)
    ensures
        feed_header_encoded(m) == enc_all(feed_header_encs(m)),
        tags_ok(feed_header_encs(m)),
{
    reveal(feed_header_encoded);
    let p0 = feed_header_gtfs_realtime_version_part(m);
    let b0 = string_field(1, m.gtfs_realtime_version);
    assert(enc_all(p0) == b0 && tags_ok(p0)) by {
        reveal(feed_header_gtfs_realtime_version_part);
        lemma_enc_single(1u32, Enc::Bytes(encode_utf8(m.gtfs_realtime_version)), 0);
        assert(enc_all(p0) =~= b0);
    }
    let p1 = feed_header_incrementality_part(m);
    let b1 = opt_varint_field(
            2,
            match m.incrementality {
                Some(v) => Some(v as u64),
                None => None,
            },
        );
    assert(enc_all(p1) == b1 && tags_ok(p1)) by {
        reveal(feed_header_incrementality_part);
        match m.incrementality {
            Some(x) => {
                lemma_enc_single(2u32, Enc::Varint(x as u64), 0);
                assert(enc_all(p1) =~= b1);
            },
            None => {
                assert(enc_all(p1) =~= b1);
            },
        }
    }
    let p2 = feed_header_timestamp_part(m);
    let b2 = opt_varint_field(
            3,
            match m.timestamp {
                Some(v) => Some(v),
                None => None,
            },
        );
    assert(enc_all(p2) == b2 && tags_ok(p2)) by {
        reveal(feed_header_timestamp_part);
        match m.timestamp {
            Some(x) => {
                lemma_enc_single(3u32, Enc::Varint(x), 0);
                assert(enc_all(p2) =~= b2);
            },
            None => {
                assert(enc_all(p2) =~= b2);
            },
        }
    }
    let p3 = feed_header_feed_version_part(m);
    let b3 = match m.feed_version {
            Some(x) => string_field(4, x),
            None => Seq::empty(),
        };
    assert(enc_all(p3) == b3 && tags_ok(p3)) by {
        reveal(feed_header_feed_version_part);
        match m.feed_version {
            Some(x) => {
                lemma_enc_single(4u32, Enc::Bytes(encode_utf8(x)), 0);
                assert(enc_all(p3) =~= b3);
            },
            None => {
                assert(enc_all(p3) =~= b3);
            },
        }
    }
    let r3 = p3;
    let s3 = b3;
    let r2 = p2 + r3;
    let s2 = b2 + s3;
    lemma_enc_add(p2, r3, 0);
    let r1 = p1 + r2;
    let s1 = b1 + s2;
    lemma_enc_add(p1, r2, 0);
    let r0 = p0 + r1;
    let s0 = b0 + s1;
    lemma_enc_add(p0, r1, 0);
    let l0 = b0;
    let l1 = l0 + b1;
    let l2 = l1 + b2;
    let l3 = l2 + b3;
    assert(l0 + s1 == s0);
    lemma_add_assoc(l0, b1, s2);
    assert(l1 + s2 == s0);
    lemma_add_assoc(l1, b2, s3);
    assert(l2 + s3 == s0);
    assert(feed_header_encoded(m) == l3);
    assert(feed_header_encs(m) == r0);
}

proof fn lemma_feed_header_gtfs_realtime_version_read(data: Seq<u8>, q: nat, m: SpecFeedHeader, c: nat)
    requires
        feed_header_raw_ok(m, c),
        c + 1 >= 1,
        q + enc_all(feed_header_gtfs_realtime_version_part(m)).len() <= data.len() <= usize::MAX,
        data.subrange(q as int, (q + enc_all(feed_header_gtfs_realtime_version_part(m)).len()) as int) == enc_all(feed_header_gtfs_realtime_version_part(m)),
    ensures
        fold_fields(fields_at(feed_header_gtfs_realtime_version_part(m), q), feed_header_default(), feed_header_step(data, c)) == Ok::<SpecFeedHeader, ErrorKind>(
            SpecFeedHeader { gtfs_realtime_version: m.gtfs_realtime_version, ..feed_header_default() },
        ),
{
    let p0 = feed_header_gtfs_realtime_version_part(m);
    let q0 = q;
    let step = feed_header_step(data, c);
    let m0 = feed_header_default();
    let m1 = SpecFeedHeader { gtfs_realtime_version: m.gtfs_realtime_version, ..feed_header_default() };
    reveal(feed_header_gtfs_realtime_version_part);
    lemma_enc_single(1u32, Enc::Bytes(encode_utf8(m.gtfs_realtime_version)), q0);
    lemma_field_read(data, q0, q0 + enc_all(p0).len(), c, 1u32, Enc::Bytes(encode_utf8(m.gtfs_realtime_version)));
    lemma_fold_single(field_at(1u32, Enc::Bytes(encode_utf8(m.gtfs_realtime_version)), q0), m0, step);
    reveal(feed_header_applied);
    encode_utf8_valid_utf8(m.gtfs_realtime_version);
    encode_utf8_decode_utf8(m.gtfs_realtime_version);
    assert(feed_header_applied(data, field_at(1u32, Enc::Bytes(encode_utf8(m.gtfs_realtime_version)), q0), m0, c) == Ok::<SpecFeedHeader, ErrorKind>(m1));
}

proof fn lemma_feed_header_incrementality_read(data: Seq<u8>, q: nat, m: SpecFeedHeader, c: nat)
    requires
        feed_header_raw_ok(m, c),
        c + 1 >= 1,
        q + enc_all(feed_header_incrementality_part(m)).len() <= data.len() <= usize::MAX,
        data.subrange(q as int, (q + enc_all(feed_header_incrementality_part(m)).len()) as int) == enc_all(feed_header_incrementality_part(m)),
    ensures
        fold_fields(fields_at(feed_header_incrementality_part(m), q), SpecFeedHeader { gtfs_realtime_version: m.gtfs_realtime_version, ..feed_header_default() }, feed_header_step(data, c)) == Ok::<SpecFeedHeader, ErrorKind>(
            SpecFeedHeader { gtfs_realtime_version: m.gtfs_realtime_version, incrementality: m.incrementality, ..feed_header_default() },
        ),
{
    let p1 = feed_header_incrementality_part(m);
    let q1 = q;
    let step = feed_header_step(data, c);
    let m1 = SpecFeedHeader { gtfs_realtime_version: m.gtfs_realtime_version, ..feed_header_default() };
    let m2 = SpecFeedHeader { gtfs_realtime_version: m.gtfs_realtime_version, incrementality: m.incrementality, ..feed_header_default() };
    reveal(feed_header_incrementality_part);
    match m.incrementality {
        Some(x) => {
            lemma_enc_single(2u32, Enc::Varint(x as u64), q1);
            lemma_field_read(data, q1, q1 + enc_all(p1).len(), c, 2u32, Enc::Varint(x as u64));
            lemma_fold_single(field_at(2u32, Enc::Varint(x as u64), q1), m1, step);
            reveal(feed_header_applied);
            lemma_i32_wire(x);
            assert(feed_header_applied(data, field_at(2u32, Enc::Varint(x as u64), q1), m1, c) == Ok::<SpecFeedHeader, ErrorKind>(m2));
        },
        None => {
                assert(p1 =~= Seq::<(u32, Enc)>::empty());
            },
    }
}

proof fn lemma_feed_header_timestamp_read(data: Seq<u8>, q: nat, m: SpecFeedHeader, c: nat)
    requires
        feed_header_raw_ok(m, c),
        c + 1 >= 1,
        q + enc_all(feed_header_timestamp_part(m)).len() <= data.len() <= usize::MAX,
        data.subrange(q as int, (q + enc_all(feed_header_timestamp_part(m)).len()) as int) == enc_all(feed_header_timestamp_part(m)),
    ensures
        fold_fields(fields_at(feed_header_timestamp_part(m), q), SpecFeedHeader { gtfs_realtime_version: m.gtfs_realtime_version, incrementality: m.incrementality, ..feed_header_default() }, feed_header_step(data, c)) == Ok::<SpecFeedHeader, ErrorKind>(
            SpecFeedHeader { gtfs_realtime_version: m.gtfs_realtime_version, incrementality: m.incrementality, timestamp: m.timestamp, ..feed_header_default() },
        ),
{
    let p2 = feed_header_timestamp_part(m);
    let q2 = q;
    let step = feed_header_step(data, c);
    let m2 = SpecFeedHeader { gtfs_realtime_version: m.gtfs_realtime_version, incrementality: m.incrementality, ..feed_header_default() };
    let m3 = SpecFeedHeader { gtfs_realtime_version: m.gtfs_realtime_version, incrementality: m.incrementality, timestamp: m.timestamp, ..feed_header_default() };
    reveal(feed_header_timestamp_part);
    match m.timestamp {
        Some(x) => {
            lemma_enc_single(3u32, Enc::Varint(x), q2);
            lemma_field_read(data, q2, q2 + enc_all(p2).len(), c, 3u32, Enc::Varint(x));
            lemma_fold_single(field_at(3u32, Enc::Varint(x), q2), m2, step);
            reveal(feed_header_applied);
            assert(feed_header_applied(data, field_at(3u32, Enc::Varint(x), q2), m2, c) == Ok::<SpecFeedHeader, ErrorKind>(m3));
        },
        None => {
                assert(p2 =~= Seq::<(u32, Enc)>::empty());
            },
    }
}

proof fn lemma_feed_header_feed_version_read(data: Seq<u8>, q: nat, m: SpecFeedHeader, c: nat)
    requires
        feed_header_raw_ok(m, c),
        c + 1 >= 1,
        q + enc_all(feed_header_feed_version_part(m)).len() <= data.len() <= usize::MAX,
        data.subrange(q as int, (q + enc_all(feed_header_feed_version_part(m)).len()) as int) == enc_all(feed_header_feed_version_part(m)),
    ensures
        fold_fields(fields_at(feed_header_feed_version_part(m), q), SpecFeedHeader { gtfs_realtime_version: m.gtfs_realtime_version, incrementality: m.incrementality, timestamp: m.timestamp, ..feed_header_default() }, feed_header_step(data, c)) == Ok::<SpecFeedHeader, ErrorKind>(
            SpecFeedHeader { gtfs_realtime_version: m.gtfs_realtime_version, incrementality: m.incrementality, timestamp: m.timestamp, feed_version: m.feed_version, ..feed_header_default() },
        ),
{
    let p3 = feed_header_feed_version_part(m);
    let q3 = q;
    let step = feed_header_step(data, c);
    let m3 = SpecFeedHeader { gtfs_realtime_version: m.gtfs_realtime_version, incrementality: m.incrementality, timestamp: m.timestamp, ..feed_header_default() };
    let m4 = SpecFeedHeader { gtfs_realtime_version: m.gtfs_realtime_version, incrementality: m.incrementality, timestamp: m.timestamp, feed_version: m.feed_version, ..feed_header_default() };
    reveal(feed_header_feed_version_part);
    match m.feed_version {
        Some(x) => {
            lemma_enc_single(4u32, Enc::Bytes(encode_utf8(x)), q3);
            lemma_field_read(data, q3, q3 + enc_all(p3).len(), c, 4u32, Enc::Bytes(encode_utf8(x)));
            lemma_fold_single(field_at(4u32, Enc::Bytes(encode_utf8(x)), q3), m3, step);
            reveal(feed_header_applied);
            encode_utf8_valid_utf8(x);
            encode_utf8_decode_utf8(x);
            assert(feed_header_applied(data, field_at(4u32, Enc::Bytes(encode_utf8(x)), q3), m3, c) == Ok::<SpecFeedHeader, ErrorKind>(m4));
        },
        None => {
                assert(p3 =~= Seq::<(u32, Enc)>::empty());
            },
    }
}

proof fn lemma_feed_header_fold(data: Seq<u8>, s: nat, m: SpecFeedHeader, c: nat)
    requires
        feed_header_raw_ok(m, c),
        c + 1 >= 1,
        s + enc_all(feed_header_encs(m)).len() <= data.len() <= usize::MAX,
        data.subrange(s as int, (s + enc_all(feed_header_encs(m)).len()) as int) == enc_all(feed_header_encs(m)),
    ensures
        fold_fields(fields_at(feed_header_encs(m), s), feed_header_default(), feed_header_step(data, c)) == Ok::<
            SpecFeedHeader,
            ErrorKind,
        >(m),
{
    let es = feed_header_encs(m);
    let step = feed_header_step(data, c);
    let p0 = feed_header_gtfs_realtime_version_part(m);
    let p1 = feed_header_incrementality_part(m);
    let p2 = feed_header_timestamp_part(m);
    let p3 = feed_header_feed_version_part(m);
    let r3 = p3;
    let r2 = p2 + r3;
    let r1 = p1 + r2;
    let r0 = p0 + r1;
    assert(es == r0);
    let m0 = feed_header_default();
    let q0 = s;
    let m1 = SpecFeedHeader { gtfs_realtime_version: m.gtfs_realtime_version, ..feed_header_default() };
    let q1 = q0 + enc_all(p0).len();
    assert(fold_fields(fields_at(r0, q0), m0, step) == fold_fields(fields_at(r1, q1), m1, step)
        && q1 + enc_all(r1).len() <= data.len()
        && data.subrange(q1 as int, (q1 + enc_all(r1).len()) as int) == enc_all(r1)) by {
        lemma_enc_add(p0, r1, q0);
        lemma_subrange_split(data, q0, enc_all(p0), enc_all(r1));
        lemma_fold_add(fields_at(p0, q0), fields_at(r1, q1), m0, step);
        lemma_feed_header_gtfs_realtime_version_read(data, q0, m, c);
    }
    let m2 = SpecFeedHeader { gtfs_realtime_version: m.gtfs_realtime_version, incrementality: m.incrementality, ..feed_header_default() };
    let q2 = q1 + enc_all(p1).len();
    assert(fold_fields(fields_at(r1, q1), m1, step) == fold_fields(fields_at(r2, q2), m2, step)
        && q2 + enc_all(r2).len() <= data.len()
        && data.subrange(q2 as int, (q2 + enc_all(r2).len()) as int) == enc_all(r2)) by {
        lemma_enc_add(p1, r2, q1);
        lemma_subrange_split(data, q1, enc_all(p1), enc_all(r2));
        lemma_fold_add(fields_at(p1, q1), fields_at(r2, q2), m1, step);
        lemma_feed_header_incrementality_read(data, q1, m, c);
    }
    let m3 = SpecFeedHeader { gtfs_realtime_version: m.gtfs_realtime_version, incrementality: m.incrementality, timestamp: m.timestamp, ..feed_header_default() };
    let q3 = q2 + enc_all(p2).len();
    assert(fold_fields(fields_at(r2, q2), m2, step) == fold_fields(fields_at(r3, q3), m3, step)
        && q3 + enc_all(r3).len() <= data.len()
        && data.subrange(q3 as int, (q3 + enc_all(r3).len()) as int) == enc_all(r3)) by {
        lemma_enc_add(p2, r3, q2);
        lemma_subrange_split(data, q2, enc_all(p2), enc_all(r3));
        lemma_fold_add(fields_at(p2, q2), fields_at(r3, q3), m2, step);
        lemma_feed_header_timestamp_read(data, q2, m, c);
    }
    let m4 = SpecFeedHeader { gtfs_realtime_version: m.gtfs_realtime_version, incrementality: m.incrementality, timestamp: m.timestamp, feed_version: m.feed_version, ..feed_header_default() };
    let q4 = q3 + enc_all(p3).len();
    lemma_feed_header_feed_version_read(data, q3, m, c);
    assert(m4 == m);
}

/// Decoding the bytes of a `FeedHeader` gives it back.
pub proof fn lemma_feed_header_decoded(data: Seq<u8>, s: nat, m: SpecFeedHeader, ctx: nat)
    requires
        feed_header_raw_ok(m, (ctx - 1) as nat),
        ctx >= 1,
        s + feed_header_encoded(m).len() <= data.len() <= usize::MAX,
        data.subrange(s as int, (s + feed_header_encoded(m).len()) as int) == feed_header_encoded(m),
    ensures
        feed_header_merged(data, s, s + feed_header_encoded(m).len(), ctx, feed_header_default()) == Ok::<
            SpecFeedHeader,
            ErrorKind,
        >(m),
{
    lemma_feed_header_encs(m);
    lemma_fields_read(data, s, feed_header_encs(m), (ctx - 1) as nat);
    lemma_feed_header_fold(data, s, m, (ctx - 1) as nat);
}

/// Every part of a `FeedEntity` kept as raw bytes, at any depth, passes the
/// check that decoding gives it when the fields of the `FeedEntity` are read
/// with budget `c`.
pub open spec fn feed_entity_raw_ok(m: SpecFeedEntity, c: nat) -> bool {
    (m.trip_update matches Some(x) ==> trip_update_raw_ok(x, (c - 1) as nat))
    && (m.vehicle matches Some(x) ==> vehicle_position_raw_ok(x, (c - 1) as nat))
    && (m.alert matches Some(x) ==> alert_raw_ok(x, (c - 1) as nat))
    && (m.shape matches Some(b) ==> raw_ok(RawKind::Shape, b, c))
    && (m.stop matches Some(b) ==> raw_ok(RawKind::Stop, b, c))
    && (m.trip_modifications matches Some(x) ==> trip_modifications_raw_ok(x, (c - 1) as nat))
}

/// Field `id` of a `FeedEntity` as it is written.
#[verifier::opaque]
pub open spec fn feed_entity_id_part(m: SpecFeedEntity) -> Seq<(u32, Enc)> {
    seq![(1u32, Enc::Bytes(encode_utf8(m.id)))]
}

/// Field `is_deleted` of a `FeedEntity` as it is written.
#[verifier::opaque]
pub open spec fn feed_entity_is_deleted_part(m: SpecFeedEntity) -> Seq<(u32, Enc)> {
    match m.is_deleted {
        Some(x) => seq![(2u32, Enc::Varint(if x { 1u64 } else { 0u64 }))],
        None => Seq::empty(),
    }
}

/// Field `trip_update` of a `FeedEntity` as it is written.
#[verifier::opaque]
pub open spec fn feed_entity_trip_update_part(m: SpecFeedEntity) -> Seq<(u32, Enc)> {
    match m.trip_update {
        Some(x) => seq![(3u32, Enc::Bytes(trip_update_encoded(x)))],
        None => Seq::empty(),
    }
}

/// Field `vehicle` of a `FeedEntity` as it is written.
#[verifier::opaque]
pub open spec fn feed_entity_vehicle_part(m: SpecFeedEntity) -> Seq<(u32, Enc)> {
    match m.vehicle {
        Some(x) => seq![(4u32, Enc::Bytes(vehicle_position_encoded(x)))],
        None => Seq::empty(),
    }
}

/// Field `alert` of a `FeedEntity` as it is written.
#[verifier::opaque]
pub open spec fn feed_entity_alert_part(m: SpecFeedEntity) -> Seq<(u32, Enc)> {
    match m.alert {
        Some(x) => seq![(5u32, Enc::Bytes(alert_encoded(x)))],
        None => Seq::empty(),
    }
}

/// Field `shape` of a `FeedEntity` as it is written.
#[verifier::opaque]
pub open spec fn feed_entity_shape_part(m: SpecFeedEntity) -> Seq<(u32, Enc)> {
    match m.shape {
        Some(x) => seq![(6u32, Enc::Bytes(x))],
        None => Seq::empty(),
    }
}

/// Field `stop` of a `FeedEntity` as it is written.
#[verifier::opaque]
pub open spec fn feed_entity_stop_part(m: SpecFeedEntity) -> Seq<(u32, Enc)> {
    match m.stop {
        Some(x) => seq![(7u32, Enc::Bytes(x))],
        None => Seq::empty(),
    }
}

/// Field `trip_modifications` of a `FeedEntity` as it is written.
#[verifier::opaque]
pub open spec fn feed_entity_trip_modifications_part(m: SpecFeedEntity) -> Seq<(u32, Enc)> {
    match m.trip_modifications {
        Some(x) => seq![(8u32, Enc::Bytes(trip_modifications_encoded(x)))],
        None => Seq::empty(),
    }
}

/// The fields of a `FeedEntity` as they are written.
pub open spec fn feed_entity_encs(m: SpecFeedEntity) -> Seq<(u32, Enc)> {
    feed_entity_id_part(m) + (feed_entity_is_deleted_part(m) + (feed_entity_trip_update_part(m) + (feed_entity_vehicle_part(m) + (feed_entity_alert_part(m) + (feed_entity_shape_part(m) + (feed_entity_stop_part(m) + (feed_entity_trip_modifications_part(m))))))))
}

#[verifier::rlimit(100)]
proof fn lemma_feed_entity_encs(m: SpecFeedEntity)
    ensures
        feed_entity_encoded(m) == enc_all(feed_entity_encs(m)),
        tags_ok(feed_entity_encs(m)),
{
    reveal(feed_entity_encoded);
    let p0 = feed_entity_id_part(m);
    let b0 = string_field(1, m.id);
    assert(enc_all(p0) == b0 && tags_ok(p0)) by {
        reveal(feed_entity_id_part);
        lemma_enc_single(1u32, Enc::Bytes(encode_utf8(m.id)), 0);
        assert(enc_all(p0) =~= b0);
    }
    let p1 = feed_entity_is_deleted_part(m);
    let b1 = opt_varint_field(
            2,
            match m.is_deleted {
                Some(v) => Some(if v { 1u64 } else { 0u64 }),
                None => None,
            },
        );
    assert(enc_all(p1) == b1 && tags_ok(p1)) by {
        reveal(feed_entity_is_deleted_part);
        match m.is_deleted {
            Some(x) => {
                lemma_enc_single(2u32, Enc::Varint(if x { 1u64 } else { 0u64 }), 0);
                assert(enc_all(p1) =~= b1);
            },
            None => {
                assert(enc_all(p1) =~= b1);
            },
        }
    }
    let p2 = feed_entity_trip_update_part(m);
    let b2 = opt_bytes_field(
            3,
            match m.trip_update {
                Some(x) => Some(trip_update_encoded(x)),
                None => None,
            },
        );
    assert(enc_all(p2) == b2 && tags_ok(p2)) by {
        reveal(feed_entity_trip_update_part);
        match m.trip_update {
            Some(x) => {
                lemma_enc_single(3u32, Enc::Bytes(trip_update_encoded(x)), 0);
                assert(enc_all(p2) =~= b2);
            },
            None => {
                assert(enc_all(p2) =~= b2);
            },
        }
    }
    let p3 = feed_entity_vehicle_part(m);
    let b3 = opt_bytes_field(
            4,
            match m.vehicle {
                Some(x) => Some(vehicle_position_encoded(x)),
                None => None,
            },
        );
    assert(enc_all(p3) == b3 && tags_ok(p3)) by {
        reveal(feed_entity_vehicle_part);
        match m.vehicle {
            Some(x) => {
                lemma_enc_single(4u32, Enc::Bytes(vehicle_position_encoded(x)), 0);
                assert(enc_all(p3) =~= b3);
            },
            None => {
                assert(enc_all(p3) =~= b3);
            },
        }
    }
    let p4 = feed_entity_alert_part(m);
    let b4 = opt_bytes_field(
            5,
            match m.alert {
                Some(x) => Some(alert_encoded(x)),
                None => None,
            },
        );
    assert(enc_all(p4) == b4 && tags_ok(p4)) by {
        reveal(feed_entity_alert_part);
        match m.alert {
            Some(x) => {
                lemma_enc_single(5u32, Enc::Bytes(alert_encoded(x)), 0);
                assert(enc_all(p4) =~= b4);
            },
            None => {
                assert(enc_all(p4) =~= b4);
            },
        }
    }
    let p5 = feed_entity_shape_part(m);
    let b5 = opt_bytes_field(6, m.shape);
    assert(enc_all(p5) == b5 && tags_ok(p5)) by {
        reveal(feed_entity_shape_part);
        match m.shape {
            Some(x) => {
                lemma_enc_single(6u32, Enc::Bytes(x), 0);
                assert(enc_all(p5) =~= b5);
            },
            None => {
                assert(enc_all(p5) =~= b5);
            },
        }
    }
    let p6 = feed_entity_stop_part(m);
    let b6 = opt_bytes_field(7, m.stop);
    assert(enc_all(p6) == b6 && tags_ok(p6)) by {
        reveal(feed_entity_stop_part);
        match m.stop {
            Some(x) => {
                lemma_enc_single(7u32, Enc::Bytes(x), 0);
                assert(enc_all(p6) =~= b6);
            },
            None => {
                assert(enc_all(p6) =~= b6);
            },
        }
    }
    let p7 = feed_entity_trip_modifications_part(m);
    let b7 = opt_bytes_field(
            8,
            match m.trip_modifications {
                Some(x) => Some(trip_modifications_encoded(x)),
                None => None,
            },
        );
    assert(enc_all(p7) == b7 && tags_ok(p7)) by {
        reveal(feed_entity_trip_modifications_part);
        match m.trip_modifications {
            Some(x) => {
                lemma_enc_single(8u32, Enc::Bytes(trip_modifications_encoded(x)), 0);
                assert(enc_all(p7) =~= b7);
            },
            None => {
                assert(enc_all(p7) =~= b7);
            },
        }
    }
    let r7 = p7;
    let s7 = b7;
    let r6 = p6 + r7;
    let s6 = b6 + s7;
    lemma_enc_add(p6, r7, 0);
    let r5 = p5 + r6;
    let s5 = b5 + s6;
    lemma_enc_add(p5, r6, 0);
    let r4 = p4 + r5;
    let s4 = b4 + s5;
    lemma_enc_add(p4, r5, 0);
    let r3 = p3 + r4;
    let s3 = b3 + s4;
    lemma_enc_add(p3, r4, 0);
    let r2 = p2 + r3;
    let s2 = b2 + s3;
    lemma_enc_add(p2, r3, 0);
    let r1 = p1 + r2;
    let s1 = b1 + s2;
    lemma_enc_add(p1, r2, 0);
    let r0 = p0 + r1;
    let s0 = b0 + s1;
    lemma_enc_add(p0, r1, 0);
    let l0 = b0;
    let l1 = l0 + b1;
    let l2 = l1 + b2;
    let l3 = l2 + b3;
    let l4 = l3 + b4;
    let l5 = l4 + b5;
    let l6 = l5 + b6;
    let l7 = l6 + b7;
    assert(l0 + s1 == s0);
    lemma_add_assoc(l0, b1, s2);
    assert(l1 + s2 == s0);
    lemma_add_assoc(l1, b2, s3);
    assert(l2 + s3 == s0);
    lemma_add_assoc(l2, b3, s4);
    assert(l3 + s4 == s0);
    lemma_add_assoc(l3, b4, s5);
    assert(l4 + s5 == s0);
    lemma_add_assoc(l4, b5, s6);
    assert(l5 + s6 == s0);
    lemma_add_assoc(l5, b6, s7);
    assert(l6 + s7 == s0);
    assert(feed_entity_encoded(m) == l7);
    assert(feed_entity_encs(m) == r0);
}

proof fn lemma_feed_entity_id_read(data: Seq<u8>, q: nat, m: SpecFeedEntity, c: nat)
    requires
        feed_entity_raw_ok(m, c),
        c + 1 >= 5,
        q + enc_all(feed_entity_id_part(m)).len() <= data.len() <= usize::MAX,
        data.subrange(q as int, (q + enc_all(feed_entity_id_part(m)).len()) as int) == enc_all(feed_entity_id_part(m)),
    ensures
        fold_fields(fields_at(feed_entity_id_part(m), q), feed_entity_default(), feed_entity_step(data, c)) == Ok::<SpecFeedEntity, ErrorKind>(
            SpecFeedEntity { id: m.id, ..feed_entity_default() },
        ),
{
    let p0 = feed_entity_id_part(m);
    let q0 = q;
    let step = feed_entity_step(data, c);
    let m0 = feed_entity_default();
    let m1 = SpecFeedEntity { id: m.id, ..feed_entity_default() };
    reveal(feed_entity_id_part);
    lemma_enc_single(1u32, Enc::Bytes(encode_utf8(m.id)), q0);
    lemma_field_read(data, q0, q0 + enc_all(p0).len(), c, 1u32, Enc::Bytes(encode_utf8(m.id)));
    lemma_fold_single(field_at(1u32, Enc::Bytes(encode_utf8(m.id)), q0), m0, step);
    reveal(feed_entity_applied);
    encode_utf8_valid_utf8(m.id);
    encode_utf8_decode_utf8(m.id);
    assert(feed_entity_applied(data, field_at(1u32, Enc::Bytes(encode_utf8(m.id)), q0), m0, c) == Ok::<SpecFeedEntity, ErrorKind>(m1));
}

proof fn lemma_feed_entity_is_deleted_read(data: Seq<u8>, q: nat, m: SpecFeedEntity, c: nat)
    requires
        feed_entity_raw_ok(m, c),
        c + 1 >= 5,
        q + enc_all(feed_entity_is_deleted_part(m)).len() <= data.len() <= usize::MAX,
        data.subrange(q as int, (q + enc_all(feed_entity_is_deleted_part(m)).len()) as int) == enc_all(feed_entity_is_deleted_part(m)),
    ensures
        fold_fields(fields_at(feed_entity_is_deleted_part(m), q), SpecFeedEntity { id: m.id, ..feed_entity_default() }, feed_entity_step(data, c)) == Ok::<SpecFeedEntity, ErrorKind>(
            SpecFeedEntity { id: m.id, is_deleted: m.is_deleted, ..feed_entity_default() },
        ),
{
    let p1 = feed_entity_is_deleted_part(m);
    let q1 = q;
    let step = feed_entity_step(data, c);
    let m1 = SpecFeedEntity { id: m.id, ..feed_entity_default() };
    let m2 = SpecFeedEntity { id: m.id, is_deleted: m.is_deleted, ..feed_entity_default() };
    reveal(feed_entity_is_deleted_part);
    match m.is_deleted {
        Some(x) => {
            lemma_enc_single(2u32, Enc::Varint(if x { 1u64 } else { 0u64 }), q1);
            lemma_field_read(data, q1, q1 + enc_all(p1).len(), c, 2u32, Enc::Varint(if x { 1u64 } else { 0u64 }));
            lemma_fold_single(field_at(2u32, Enc::Varint(if x { 1u64 } else { 0u64 }), q1), m1, step);
            reveal(feed_entity_applied);
            assert(feed_entity_applied(data, field_at(2u32, Enc::Varint(if x { 1u64 } else { 0u64 }), q1), m1, c) == Ok::<SpecFeedEntity, ErrorKind>(m2));
        },
        None => {
                assert(p1 =~= Seq::<(u32, Enc)>::empty());
            },
    }
}

proof fn lemma_feed_entity_trip_update_read(data: Seq<u8>, q: nat, m: SpecFeedEntity, c: nat)
    requires
        feed_entity_raw_ok(m, c),
        c + 1 >= 5,
        q + enc_all(feed_entity_trip_update_part(m)).len() <= data.len() <= usize::MAX,
        data.subrange(q as int, (q + enc_all(feed_entity_trip_update_part(m)).len()) as int) == enc_all(feed_entity_trip_update_part(m)),
    ensures
        fold_fields(fields_at(feed_entity_trip_update_part(m), q), SpecFeedEntity { id: m.id, is_deleted: m.is_deleted, ..feed_entity_default() }, feed_entity_step(data, c)) == Ok::<SpecFeedEntity, ErrorKind>(
            SpecFeedEntity { id: m.id, is_deleted: m.is_deleted, trip_update: m.trip_update, ..feed_entity_default() },
        ),
{
    let p2 = feed_entity_trip_update_part(m);
    let q2 = q;
    let step = feed_entity_step(data, c);
    let m2 = SpecFeedEntity { id: m.id, is_deleted: m.is_deleted, ..feed_entity_default() };
    let m3 = SpecFeedEntity { id: m.id, is_deleted: m.is_deleted, trip_update: m.trip_update, ..feed_entity_default() };
    reveal(feed_entity_trip_update_part);
    match m.trip_update {
        Some(x) => {
            lemma_enc_single(3u32, Enc::Bytes(trip_update_encoded(x)), q2);
            lemma_field_read(data, q2, q2 + enc_all(p2).len(), c, 3u32, Enc::Bytes(trip_update_encoded(x)));
            lemma_fold_single(field_at(3u32, Enc::Bytes(trip_update_encoded(x)), q2), m2, step);
            reveal(feed_entity_applied);
            let a = q2 + key_bytes(3nat, 2).len() + varint_bytes(trip_update_encoded(x).len()).len();
            lemma_trip_update_decoded(data, a, x, c);
            assert(feed_entity_applied(data, field_at(3u32, Enc::Bytes(trip_update_encoded(x)), q2), m2, c) == Ok::<SpecFeedEntity, ErrorKind>(m3));
        },
        None => {
                assert(p2 =~= Seq::<(u32, Enc)>::empty());
            },
    }
}

proof fn lemma_feed_entity_vehicle_read(data: Seq<u8>, q: nat, m: SpecFeedEntity, c: nat)
    requires
        feed_entity_raw_ok(m, c),
        c + 1 >= 5,
        q + enc_all(feed_entity_vehicle_part(m)).len() <= data.len() <= usize::MAX,
        data.subrange(q as int, (q + enc_all(feed_entity_vehicle_part(m)).len()) as int) == enc_all(feed_entity_vehicle_part(m)),
    ensures
        fold_fields(fields_at(feed_entity_vehicle_part(m), q), SpecFeedEntity { id: m.id, is_deleted: m.is_deleted, trip_update: m.trip_update, ..feed_entity_default() }, feed_entity_step(data, c)) == Ok::<SpecFeedEntity, ErrorKind>(
            SpecFeedEntity { id: m.id, is_deleted: m.is_deleted, trip_update: m.trip_update, vehicle: m.vehicle, ..feed_entity_default() },
        ),
{
    let p3 = feed_entity_vehicle_part(m);
    let q3 = q;
    let step = feed_entity_step(data, c);
    let m3 = SpecFeedEntity { id: m.id, is_deleted: m.is_deleted, trip_update: m.trip_update, ..feed_entity_default() };
    let m4 = SpecFeedEntity { id: m.id, is_deleted: m.is_deleted, trip_update: m.trip_update, vehicle: m.vehicle, ..feed_entity_default() };
    reveal(feed_entity_vehicle_part);
    match m.vehicle {
        Some(x) => {
            lemma_enc_single(4u32, Enc::Bytes(vehicle_position_encoded(x)), q3);
            lemma_field_read(data, q3, q3 + enc_all(p3).len(), c, 4u32, Enc::Bytes(vehicle_position_encoded(x)));
            lemma_fold_single(field_at(4u32, Enc::Bytes(vehicle_position_encoded(x)), q3), m3, step);
            reveal(feed_entity_applied);
            let a = q3 + key_bytes(4nat, 2).len() + varint_bytes(vehicle_position_encoded(x).len()).len();
            lemma_vehicle_position_decoded(data, a, x, c);
            assert(feed_entity_applied(data, field_at(4u32, Enc::Bytes(vehicle_position_encoded(x)), q3), m3, c) == Ok::<SpecFeedEntity, ErrorKind>(m4));
        },
        None => {
                assert(p3 =~= Seq::<(u32, Enc)>::empty());
            },
    }
}

proof fn lemma_feed_entity_alert_read(data: Seq<u8>, q: nat, m: SpecFeedEntity, c: nat)
    requires
        feed_entity_raw_ok(m, c),
        c + 1 >= 5,
        q + enc_all(feed_entity_alert_part(m)).len() <= data.len() <= usize::MAX,
        data.subrange(q as int, (q + enc_all(feed_entity_alert_part(m)).len()) as int) == enc_all(feed_entity_alert_part(m)),
    ensures
        fold_fields(fields_at(feed_entity_alert_part(m), q), SpecFeedEntity { id: m.id, is_deleted: m.is_deleted, trip_update: m.trip_update, vehicle: m.vehicle, ..feed_entity_default() }, feed_entity_step(data, c)) == Ok::<SpecFeedEntity, ErrorKind>(
            SpecFeedEntity { id: m.id, is_deleted: m.is_deleted, trip_update: m.trip_update, vehicle: m.vehicle, alert: m.alert, ..feed_entity_default() },
        ),
{
    let p4 = feed_entity_alert_part(m);
    let q4 = q;
    let step = feed_entity_step(data, c);
    let m4 = SpecFeedEntity { id: m.id, is_deleted: m.is_deleted, trip_update: m.trip_update, vehicle: m.vehicle, ..feed_entity_default() };
    let m5 = SpecFeedEntity { id: m.id, is_deleted: m.is_deleted, trip_update: m.trip_update, vehicle: m.vehicle, alert: m.alert, ..feed_entity_default() };
    reveal(feed_entity_alert_part);
    match m.alert {
        Some(x) => {
            lemma_enc_single(5u32, Enc::Bytes(alert_encoded(x)), q4);
            lemma_field_read(data, q4, q4 + enc_all(p4).len(), c, 5u32, Enc::Bytes(alert_encoded(x)));
            lemma_fold_single(field_at(5u32, Enc::Bytes(alert_encoded(x)), q4), m4, step);
            reveal(feed_entity_applied);
            let a = q4 + key_bytes(5nat, 2).len() + varint_bytes(alert_encoded(x).len()).len();
            lemma_alert_decoded(data, a, x, c);
            assert(feed_entity_applied(data, field_at(5u32, Enc::Bytes(alert_encoded(x)), q4), m4, c) == Ok::<SpecFeedEntity, ErrorKind>(m5));
        },
        None => {
                assert(p4 =~= Seq::<(u32, Enc)>::empty());
            },
    }
}

proof fn lemma_feed_entity_shape_read(data: Seq<u8>, q: nat, m: SpecFeedEntity, c: nat)
    requires
        feed_entity_raw_ok(m, c),
        c + 1 >= 5,
        q + enc_all(feed_entity_shape_part(m)).len() <= data.len() <= usize::MAX,
        data.subrange(q as int, (q + enc_all(feed_entity_shape_part(m)).len()) as int) == enc_all(feed_entity_shape_part(m)),
    ensures
        fold_fields(fields_at(feed_entity_shape_part(m), q), SpecFeedEntity { id: m.id, is_deleted: m.is_deleted, trip_update: m.trip_update, vehicle: m.vehicle, alert: m.alert, ..feed_entity_default() }, feed_entity_step(data, c)) == Ok::<SpecFeedEntity, ErrorKind>(
            SpecFeedEntity { id: m.id, is_deleted: m.is_deleted, trip_update: m.trip_update, vehicle: m.vehicle, alert: m.alert, shape: m.shape, ..feed_entity_default() },
        ),
{
    let p5 = feed_entity_shape_part(m);
    let q5 = q;
    let step = feed_entity_step(data, c);
    let m5 = SpecFeedEntity { id: m.id, is_deleted: m.is_deleted, trip_update: m.trip_update, vehicle: m.vehicle, alert: m.alert, ..feed_entity_default() };
    let m6 = SpecFeedEntity { id: m.id, is_deleted: m.is_deleted, trip_update: m.trip_update, vehicle: m.vehicle, alert: m.alert, shape: m.shape, ..feed_entity_default() };
    reveal(feed_entity_shape_part);
    match m.shape {
        Some(x) => {
            lemma_enc_single(6u32, Enc::Bytes(x), q5);
            lemma_field_read(data, q5, q5 + enc_all(p5).len(), c, 6u32, Enc::Bytes(x));
            lemma_fold_single(field_at(6u32, Enc::Bytes(x), q5), m5, step);
            reveal(feed_entity_applied);
            let a = q5 + key_bytes(6nat, 2).len() + varint_bytes(x.len()).len();
            lemma_check_in_place(data, a, x, RawKind::Shape, c);
            assert(Seq::<u8>::empty() + x =~= x);
            assert(feed_entity_applied(data, field_at(6u32, Enc::Bytes(x), q5), m5, c) == Ok::<SpecFeedEntity, ErrorKind>(m6));
        },
        None => {
                assert(p5 =~= Seq::<(u32, Enc)>::empty());
            },
    }
}

proof fn lemma_feed_entity_stop_read(data: Seq<u8>, q: nat, m: SpecFeedEntity, c: nat)
    requires
        feed_entity_raw_ok(m, c),
        c + 1 >= 5,
        q + enc_all(feed_entity_stop_part(m)).len() <= data.len() <= usize::MAX,
        data.subrange(q as int, (q + enc_all(feed_entity_stop_part(m)).len()) as int) == enc_all(feed_entity_stop_part(m)),
    ensures
        fold_fields(fields_at(feed_entity_stop_part(m), q), SpecFeedEntity { id: m.id, is_deleted: m.is_deleted, trip_update: m.trip_update, vehicle: m.vehicle, alert: m.alert, shape: m.shape, ..feed_entity_default() }, feed_entity_step(data, c)) == Ok::<SpecFeedEntity, ErrorKind>(
            SpecFeedEntity { id: m.id, is_deleted: m.is_deleted, trip_update: m.trip_update, vehicle: m.vehicle, alert: m.alert, shape: m.shape, stop: m.stop, ..feed_entity_default() },
        ),
{
    let p6 = feed_entity_stop_part(m);
    let q6 = q;
    let step = feed_entity_step(data, c);
    let m6 = SpecFeedEntity { id: m.id, is_deleted: m.is_deleted, trip_update: m.trip_update, vehicle: m.vehicle, alert: m.alert, shape: m.shape, ..feed_entity_default() };
    let m7 = SpecFeedEntity { id: m.id, is_deleted: m.is_deleted, trip_update: m.trip_update, vehicle: m.vehicle, alert: m.alert, shape: m.shape, stop: m.stop, ..feed_entity_default() };
    reveal(feed_entity_stop_part);
    match m.stop {
        Some(x) => {
            lemma_enc_single(7u32, Enc::Bytes(x), q6);
            lemma_field_read(data, q6, q6 + enc_all(p6).len(), c, 7u32, Enc::Bytes(x));
            lemma_fold_single(field_at(7u32, Enc::Bytes(x), q6), m6, step);
            reveal(feed_entity_applied);
            let a = q6 + key_bytes(7nat, 2).len() + varint_bytes(x.len()).len();
            lemma_check_in_place(data, a, x, RawKind::Stop, c);
            assert(Seq::<u8>::empty() + x =~= x);
            assert(feed_entity_applied(data, field_at(7u32, Enc::Bytes(x), q6), m6, c) == Ok::<SpecFeedEntity, ErrorKind>(m7));
        },
        None => {
                assert(p6 =~= Seq::<(u32, Enc)>::empty());
            },
    }
}

proof fn lemma_feed_entity_trip_modifications_read(data: Seq<u8>, q: nat, m: SpecFeedEntity, c: nat)
    requires
        feed_entity_raw_ok(m, c),
        c + 1 >= 5,
        q + enc_all(feed_entity_trip_modifications_part(m)).len() <= data.len() <= usize::MAX,
        data.subrange(q as int, (q + enc_all(feed_entity_trip_modifications_part(m)).len()) as int) == enc_all(feed_entity_trip_modifications_part(m)),
    ensures
        fold_fields(fields_at(feed_entity_trip_modifications_part(m), q), SpecFeedEntity { id: m.id, is_deleted: m.is_deleted, trip_update: m.trip_update, vehicle: m.vehicle, alert: m.alert, shape: m.shape, stop: m.stop, ..feed_entity_default() }, feed_entity_step(data, c)) == Ok::<SpecFeedEntity, ErrorKind>(
            SpecFeedEntity { id: m.id, is_deleted: m.is_deleted, trip_update: m.trip_update, vehicle: m.vehicle, alert: m.alert, shape: m.shape, stop: m.stop, trip_modifications: m.trip_modifications, ..feed_entity_default() },
        ),
{
    let p7 = feed_entity_trip_modifications_part(m);
    let q7 = q;
    let step = feed_entity_step(data, c);
    let m7 = SpecFeedEntity { id: m.id, is_deleted: m.is_deleted, trip_update: m.trip_update, vehicle: m.vehicle, alert: m.alert, shape: m.shape, stop: m.stop, ..feed_entity_default() };
    let m8 = SpecFeedEntity { id: m.id, is_deleted: m.is_deleted, trip_update: m.trip_update, vehicle: m.vehicle, alert: m.alert, shape: m.shape, stop: m.stop, trip_modifications: m.trip_modifications, ..feed_entity_default() };
    reveal(feed_entity_trip_modifications_part);
    match m.trip_modifications {
        Some(x) => {
            lemma_enc_single(8u32, Enc::Bytes(trip_modifications_encoded(x)), q7);
            lemma_field_read(data, q7, q7 + enc_all(p7).len(), c, 8u32, Enc::Bytes(trip_modifications_encoded(x)));
            lemma_fold_single(field_at(8u32, Enc::Bytes(trip_modifications_encoded(x)), q7), m7, step);
            reveal(feed_entity_applied);
            let a = q7 + key_bytes(8nat, 2).len() + varint_bytes(trip_modifications_encoded(x).len()).len();
            lemma_trip_modifications_decoded(data, a, x, c);
            assert(feed_entity_applied(data, field_at(8u32, Enc::Bytes(trip_modifications_encoded(x)), q7), m7, c) == Ok::<SpecFeedEntity, ErrorKind>(m8));
        },
        None => {
                assert(p7 =~= Seq::<(u32, Enc)>::empty());
            },
    }
}

proof fn lemma_feed_entity_fold(data: Seq<u8>, s: nat, m: SpecFeedEntity, c: nat)
    requires
        feed_entity_raw_ok(m, c),
        c + 1 >= 5,
        s + enc_all(feed_entity_encs(m)).len() <= data.len() <= usize::MAX,
        data.subrange(s as int, (s + enc_all(feed_entity_encs(m)).len()) as int) == enc_all(feed_entity_encs(m)),
    ensures
        fold_fields(fields_at(feed_entity_encs(m), s), feed_entity_default(), feed_entity_step(data, c)) == Ok::<
            SpecFeedEntity,
            ErrorKind,
        >(m),
{
    let es = feed_entity_encs(m);
    let step = feed_entity_step(data, c);
    let p0 = feed_entity_id_part(m);
    let p1 = feed_entity_is_deleted_part(m);
    let p2 = feed_entity_trip_update_part(m);
    let p3 = feed_entity_vehicle_part(m);
    let p4 = feed_entity_alert_part(m);
    let p5 = feed_entity_shape_part(m);
    let p6 = feed_entity_stop_part(m);
    let p7 = feed_entity_trip_modifications_part(m);
    let r7 = p7;
    let r6 = p6 + r7;
    let r5 = p5 + r6;
    let r4 = p4 + r5;
    let r3 = p3 + r4;
    let r2 = p2 + r3;
    let r1 = p1 + r2;
    let r0 = p0 + r1;
    assert(es == r0);
    let m0 = feed_entity_default();
    let q0 = s;
    let m1 = SpecFeedEntity { id: m.id, ..feed_entity_default() };
    let q1 = q0 + enc_all(p0).len();
    assert(fold_fields(fields_at(r0, q0), m0, step) == fold_fields(fields_at(r1, q1), m1, step)
        && q1 + enc_all(r1).len() <= data.len()
        && data.subrange(q1 as int, (q1 + enc_all(r1).len()) as int) == enc_all(r1)) by {
        lemma_enc_add(p0, r1, q0);
        lemma_subrange_split(data, q0, enc_all(p0), enc_all(r1));
        lemma_fold_add(fields_at(p0, q0), fields_at(r1, q1), m0, step);
        lemma_feed_entity_id_read(data, q0, m, c);
    }
    let m2 = SpecFeedEntity { id: m.id, is_deleted: m.is_deleted, ..feed_entity_default() };
    let q2 = q1 + enc_all(p1).len();
    assert(fold_fields(fields_at(r1, q1), m1, step) == fold_fields(fields_at(r2, q2), m2, step)
        && q2 + enc_all(r2).len() <= data.len()
        && data.subrange(q2 as int, (q2 + enc_all(r2).len()) as int) == enc_all(r2)) by {
        lemma_enc_add(p1, r2, q1);
        lemma_subrange_split(data, q1, enc_all(p1), enc_all(r2));
        lemma_fold_add(fields_at(p1, q1), fields_at(r2, q2), m1, step);
        lemma_feed_entity_is_deleted_read(data, q1, m, c);
    }
    let m3 = SpecFeedEntity { id: m.id, is_deleted: m.is_deleted, trip_update: m.trip_update, ..feed_entity_default() };
    let q3 = q2 + enc_all(p2).len();
    assert(fold_fields(fields_at(r2, q2), m2, step) == fold_fields(fields_at(r3, q3), m3, step)
        && q3 + enc_all(r3).len() <= data.len()
        && data.subrange(q3 as int, (q3 + enc_all(r3).len()) as int) == enc_all(r3)) by {
        lemma_enc_add(p2, r3, q2);
        lemma_subrange_split(data, q2, enc_all(p2), enc_all(r3));
        lemma_fold_add(fields_at(p2, q2), fields_at(r3, q3), m2, step);
        lemma_feed_entity_trip_update_read(data, q2, m, c);
    }
    let m4 = SpecFeedEntity { id: m.id, is_deleted: m.is_deleted, trip_update: m.trip_update, vehicle: m.vehicle, ..feed_entity_default() };
    let q4 = q3 + enc_all(p3).len();
    assert(fold_fields(fields_at(r3, q3), m3, step) == fold_fields(fields_at(r4, q4), m4, step)
        && q4 + enc_all(r4).len() <= data.len()
        && data.subrange(q4 as int, (q4 + enc_all(r4).len()) as int) == enc_all(r4)) by {
        lemma_enc_add(p3, r4, q3);
        lemma_subrange_split(data, q3, enc_all(p3), enc_all(r4));
        lemma_fold_add(fields_at(p3, q3), fields_at(r4, q4), m3, step);
        lemma_feed_entity_vehicle_read(data, q3, m, c);
    }
    let m5 = SpecFeedEntity { id: m.id, is_deleted: m.is_deleted, trip_update: m.trip_update, vehicle: m.vehicle, alert: m.alert, ..feed_entity_default() };
    let q5 = q4 + enc_all(p4).len();
    assert(fold_fields(fields_at(r4, q4), m4, step) == fold_fields(fields_at(r5, q5), m5, step)
        && q5 + enc_all(r5).len() <= data.len()
        && data.subrange(q5 as int, (q5 + enc_all(r5).len()) as int) == enc_all(r5)) by {
        lemma_enc_add(p4, r5, q4);
        lemma_subrange_split(data, q4, enc_all(p4), enc_all(r5));
        lemma_fold_add(fields_at(p4, q4), fields_at(r5, q5), m4, step);
        lemma_feed_entity_alert_read(data, q4, m, c);
    }
    let m6 = SpecFeedEntity { id: m.id, is_deleted: m.is_deleted, trip_update: m.trip_update, vehicle: m.vehicle, alert: m.alert, shape: m.shape, ..feed_entity_default() };
    let q6 = q5 + enc_all(p5).len();
    assert(fold_fields(fields_at(r5, q5), m5, step) == fold_fields(fields_at(r6, q6), m6, step)
        && q6 + enc_all(r6).len() <= data.len()
        && data.subrange(q6 as int, (q6 + enc_all(r6).len()) as int) == enc_all(r6)) by {
        lemma_enc_add(p5, r6, q5);
        lemma_subrange_split(data, q5, enc_all(p5), enc_all(r6));
        lemma_fold_add(fields_at(p5, q5), fields_at(r6, q6), m5, step);
        lemma_feed_entity_shape_read(data, q5, m, c);
    }
    let m7 = SpecFeedEntity { id: m.id, is_deleted: m.is_deleted, trip_update: m.trip_update, vehicle: m.vehicle, alert: m.alert, shape: m.shape, stop: m.stop, ..feed_entity_default() };
    let q7 = q6 + enc_all(p6).len();
    assert(fold_fields(fields_at(r6, q6), m6, step) == fold_fields(fields_at(r7, q7), m7, step)
        && q7 + enc_all(r7).len() <= data.len()
        && data.subrange(q7 as int, (q7 + enc_all(r7).len()) as int) == enc_all(r7)) by {
        lemma_enc_add(p6, r7, q6);
        lemma_subrange_split(data, q6, enc_all(p6), enc_all(r7));
        lemma_fold_add(fields_at(p6, q6), fields_at(r7, q7), m6, step);
        lemma_feed_entity_stop_read(data, q6, m, c);
    }
    let m8 = SpecFeedEntity { id: m.id, is_deleted: m.is_deleted, trip_update: m.trip_update, vehicle: m.vehicle, alert: m.alert, shape: m.shape, stop: m.stop, trip_modifications: m.trip_modifications, ..feed_entity_default() };
    let q8 = q7 + enc_all(p7).len();
    lemma_feed_entity_trip_modifications_read(data, q7, m, c);
    assert(m8 == m);
}

/// Decoding the bytes of a `FeedEntity` gives it back.
pub proof fn lemma_feed_entity_decoded(data: Seq<u8>, s: nat, m: SpecFeedEntity, ctx: nat)
    requires
        feed_entity_raw_ok(m, (ctx - 1) as nat),
        ctx >= 5,
        s + feed_entity_encoded(m).len() <= data.len() <= usize::MAX,
        data.subrange(s as int, (s + feed_entity_encoded(m).len()) as int) == feed_entity_encoded(m),
    ensures
        feed_entity_merged(data, s, s + feed_entity_encoded(m).len(), ctx, feed_entity_default()) == Ok::<
            SpecFeedEntity,
            ErrorKind,
        >(m),
{
    lemma_feed_entity_encs(m);
    lemma_fields_read(data, s, feed_entity_encs(m), (ctx - 1) as nat);
    lemma_feed_entity_fold(data, s, m, (ctx - 1) as nat);
}

/// Every part of a `TripUpdate` kept as raw bytes, at any depth, passes the
/// check that decoding gives it when the fields of the `TripUpdate` are read
/// with budget `c`.
pub open spec fn trip_update_raw_ok(m: SpecTripUpdate, c: nat) -> bool {
    trip_descriptor_raw_ok(m.trip, (c - 1) as nat)
    && (forall|i: int| 0 <= i < m.stop_time_update.len() ==> stop_time_update_raw_ok(#[trigger] m.stop_time_update[i], (c - 1) as nat))
    && (m.vehicle matches Some(x) ==> vehicle_descriptor_raw_ok(x, (c - 1) as nat))
    && (m.trip_properties matches Some(b) ==> raw_ok(RawKind::TripProperties, b, c))
}

/// Field `trip` of a `TripUpdate` as it is written.
#[verifier::opaque]
pub open spec fn trip_update_trip_part(m: SpecTripUpdate) -> Seq<(u32, Enc)> {
    seq![(1u32, Enc::Bytes(trip_descriptor_encoded(m.trip)))]
}

/// Field `stop_time_update` of a `TripUpdate` as it is written.
#[verifier::opaque]
pub open spec fn trip_update_stop_time_update_part(m: SpecTripUpdate) -> Seq<(u32, Enc)> {
    bytes_items(2u32, m.stop_time_update.map_values(stop_time_update_encoder()))
}

/// Field `vehicle` of a `TripUpdate` as it is written.
#[verifier::opaque]
pub open spec fn trip_update_vehicle_part(m: SpecTripUpdate) -> Seq<(u32, Enc)> {
    match m.vehicle {
        Some(x) => seq![(3u32, Enc::Bytes(vehicle_descriptor_encoded(x)))],
        None => Seq::empty(),
    }
}

/// Field `timestamp` of a `TripUpdate` as it is written.
#[verifier::opaque]
pub open spec fn trip_update_timestamp_part(m: SpecTripUpdate) -> Seq<(u32, Enc)> {
    match m.timestamp {
        Some(x) => seq![(4u32, Enc::Varint(x))],
        None => Seq::empty(),
    }
}

/// Field `delay` of a `TripUpdate` as it is written.
#[verifier::opaque]
pub open spec fn trip_update_delay_part(m: SpecTripUpdate) -> Seq<(u32, Enc)> {
    match m.delay {
        Some(x) => seq![(5u32, Enc::Varint(x as u64))],
        None => Seq::empty(),
    }
}

/// Field `trip_properties` of a `TripUpdate` as it is written.
#[verifier::opaque]
pub open spec fn trip_update_trip_properties_part(m: SpecTripUpdate) -> Seq<(u32, Enc)> {
    match m.trip_properties {
        Some(x) => seq![(6u32, Enc::Bytes(x))],
        None => Seq::empty(),
    }
}

/// The fields of a `TripUpdate` as they are written.
pub open spec fn trip_update_encs(m: SpecTripUpdate) -> Seq<(u32, Enc)> {
    trip_update_trip_part(m) + (trip_update_stop_time_update_part(m) + (trip_update_vehicle_part(m) + (trip_update_timestamp_part(m) + (trip_update_delay_part(m) + (trip_update_trip_properties_part(m))))))
}

#[verifier::rlimit(100)]
proof fn lemma_trip_update_encs(m: SpecTripUpdate)
    ensures
        trip_update_encoded(m) == enc_all(trip_update_encs(m)),
        tags_ok(trip_update_encs(m)),
{
    reveal(trip_update_encoded);
    let p0 = trip_update_trip_part(m);
    let b0 = bytes_field(1, trip_descriptor_encoded(m.trip));
    assert(enc_all(p0) == b0 && tags_ok(p0)) by {
        reveal(trip_update_trip_part);
        lemma_enc_single(1u32, Enc::Bytes(trip_descriptor_encoded(m.trip)), 0);
        assert(enc_all(p0) =~= b0);
    }
    let p1 = trip_update_stop_time_update_part(m);
    let b1 = repeated_bytes_field(2, m.stop_time_update.map_values(stop_time_update_encoder()));
    assert(enc_all(p1) == b1 && tags_ok(p1)) by {
        reveal(trip_update_stop_time_update_part);
        lemma_bytes_items(2u32, m.stop_time_update.map_values(stop_time_update_encoder()));
    }
    let p2 = trip_update_vehicle_part(m);
    let b2 = opt_bytes_field(
            3,
            match m.vehicle {
                Some(x) => Some(vehicle_descriptor_encoded(x)),
                None => None,
            },
        );
    assert(enc_all(p2) == b2 && tags_ok(p2)) by {
        reveal(trip_update_vehicle_part);
        match m.vehicle {
            Some(x) => {
                lemma_enc_single(3u32, Enc::Bytes(vehicle_descriptor_encoded(x)), 0);
                assert(enc_all(p2) =~= b2);
            },
            None => {
                assert(enc_all(p2) =~= b2);
            },
        }
    }
    let p3 = trip_update_timestamp_part(m);
    let b3 = opt_varint_field(
            4,
            match m.timestamp {
                Some(v) => Some(v),
                None => None,
            },
        );
    assert(enc_all(p3) == b3 && tags_ok(p3)) by {
        reveal(trip_update_timestamp_part);
        match m.timestamp {
            Some(x) => {
                lemma_enc_single(4u32, Enc::Varint(x), 0);
                assert(enc_all(p3) =~= b3);
            },
            None => {
                assert(enc_all(p3) =~= b3);
            },
        }
    }
    let p4 = trip_update_delay_part(m);
    let b4 = opt_varint_field(
            5,
            match m.delay {
                Some(v) => Some(v as u64),
                None => None,
            },
        );
    assert(enc_all(p4) == b4 && tags_ok(p4)) by {
        reveal(trip_update_delay_part);
        match m.delay {
            Some(x) => {
                lemma_enc_single(5u32, Enc::Varint(x as u64), 0);
                assert(enc_all(p4) =~= b4);
            },
            None => {
                assert(enc_all(p4) =~= b4);
            },
        }
    }
    let p5 = trip_update_trip_properties_part(m);
    let b5 = opt_bytes_field(6, m.trip_properties);
    assert(enc_all(p5) == b5 && tags_ok(p5)) by {
        reveal(trip_update_trip_properties_part);
        match m.trip_properties {
            Some(x) => {
                lemma_enc_single(6u32, Enc::Bytes(x), 0);
                assert(enc_all(p5) =~= b5);
            },
            None => {
                assert(enc_all(p5) =~= b5);
            },
        }
    }
    let r5 = p5;
    let s5 = b5;
    let r4 = p4 + r5;
    let s4 = b4 + s5;
    lemma_enc_add(p4, r5, 0);
    let r3 = p3 + r4;
    let s3 = b3 + s4;
    lemma_enc_add(p3, r4, 0);
    let r2 = p2 + r3;
    let s2 = b2 + s3;
    lemma_enc_add(p2, r3, 0);
    let r1 = p1 + r2;
    let s1 = b1 + s2;
    lemma_enc_add(p1, r2, 0);
    let r0 = p0 + r1;
    let s0 = b0 + s1;
    lemma_enc_add(p0, r1, 0);
    let l0 = b0;
    let l1 = l0 + b1;
    let l2 = l1 + b2;
    let l3 = l2 + b3;
    let l4 = l3 + b4;
    let l5 = l4 + b5;
    assert(l0 + s1 == s0);
    lemma_add_assoc(l0, b1, s2);
    assert(l1 + s2 == s0);
    lemma_add_assoc(l1, b2, s3);
    assert(l2 + s3 == s0);
    lemma_add_assoc(l2, b3, s4);
    assert(l3 + s4 == s0);
    lemma_add_assoc(l3, b4, s5);
    assert(l4 + s5 == s0);
    assert(trip_update_encoded(m) == l5);
    assert(trip_update_encs(m) == r0);
}

proof fn lemma_trip_update_stop_time_update_items(data: Seq<u8>, q: nat, items: Seq<SpecStopTimeUpdate>, mp: SpecTripUpdate, c: nat)
    requires
        forall|i: int| 0 <= i < items.len() ==> stop_time_update_raw_ok(#[trigger] items[i], (c - 1) as nat),
        c >= 2,
        q + enc_all(bytes_items(2u32, items.map_values(stop_time_update_encoder()))).len() <= data.len() <= usize::MAX,
        data.subrange(q as int, (q + enc_all(bytes_items(2u32, items.map_values(stop_time_update_encoder()))).len()) as int) == enc_all(bytes_items(2u32, items.map_values(stop_time_update_encoder()))),
    ensures
        fold_fields(fields_at(bytes_items(2u32, items.map_values(stop_time_update_encoder())), q), mp, trip_update_step(data, c)) == Ok::<SpecTripUpdate, ErrorKind>(
            SpecTripUpdate { stop_time_update: mp.stop_time_update + items, ..mp },
        ),
    decreases items.len(),
{
    let bs = items.map_values(stop_time_update_encoder());
    let es = bytes_items(2u32, bs);
    if items.len() == 0 {
        assert(es =~= Seq::<(u32, Enc)>::empty());
        assert(mp.stop_time_update + items =~= mp.stop_time_update);
    } else {
        lemma_bytes_items(2u32, bs);
        let head = seq![(2u32, Enc::Bytes(bs[0]))];
        let rest_items = items.drop_first();
        assert(bs.drop_first() =~= rest_items.map_values(stop_time_update_encoder()));
        let rest = bytes_items(2u32, rest_items.map_values(stop_time_update_encoder()));
        lemma_enc_add(head, rest, q);
        lemma_enc_single(2u32, Enc::Bytes(bs[0]), q);
        lemma_subrange_split(data, q, enc_all(head), enc_all(rest));
        lemma_field_read(data, q, q + enc_all(head).len(), c, 2u32, Enc::Bytes(bs[0]));
        let fd = field_at(2u32, Enc::Bytes(bs[0]), q);
        lemma_fold_add(seq![fd], fields_at(rest, q + enc_all(head).len()), mp, trip_update_step(data, c));
        lemma_fold_single(fd, mp, trip_update_step(data, c));
        reveal(trip_update_applied);
        let a = q + key_bytes(2nat, 2).len() + varint_bytes(bs[0].len()).len();
        lemma_stop_time_update_decoded(data, a, items[0], c);
        let m1 = SpecTripUpdate { stop_time_update: mp.stop_time_update.push(items[0]), ..mp };
        assert(trip_update_applied(data, fd, mp, c) == Ok::<SpecTripUpdate, ErrorKind>(m1));
        lemma_trip_update_stop_time_update_items(data, q + enc_all(head).len(), rest_items, m1, c);
        assert(m1.stop_time_update + rest_items =~= mp.stop_time_update + items);
    }
}

proof fn lemma_trip_update_trip_read(data: Seq<u8>, q: nat, m: SpecTripUpdate, c: nat)
    requires
        trip_update_raw_ok(m, c),
        c + 1 >= 3,
        q + enc_all(trip_update_trip_part(m)).len() <= data.len() <= usize::MAX,
        data.subrange(q as int, (q + enc_all(trip_update_trip_part(m)).len()) as int) == enc_all(trip_update_trip_part(m)),
    ensures
        fold_fields(fields_at(trip_update_trip_part(m), q), trip_update_default(), trip_update_step(data, c)) == Ok::<SpecTripUpdate, ErrorKind>(
            SpecTripUpdate { trip: m.trip, ..trip_update_default() },
        ),
{
    let p0 = trip_update_trip_part(m);
    let q0 = q;
    let step = trip_update_step(data, c);
    let m0 = trip_update_default();
    let m1 = SpecTripUpdate { trip: m.trip, ..trip_update_default() };
    reveal(trip_update_trip_part);
    lemma_enc_single(1u32, Enc::Bytes(trip_descriptor_encoded(m.trip)), q0);
    lemma_field_read(data, q0, q0 + enc_all(p0).len(), c, 1u32, Enc::Bytes(trip_descriptor_encoded(m.trip)));
    lemma_fold_single(field_at(1u32, Enc::Bytes(trip_descriptor_encoded(m.trip)), q0), m0, step);
    reveal(trip_update_applied);
    let a = q0 + key_bytes(1nat, 2).len() + varint_bytes(trip_descriptor_encoded(m.trip).len()).len();
    lemma_trip_descriptor_decoded(data, a, m.trip, c);
    assert(trip_update_applied(data, field_at(1u32, Enc::Bytes(trip_descriptor_encoded(m.trip)), q0), m0, c) == Ok::<SpecTripUpdate, ErrorKind>(m1));
}

proof fn lemma_trip_update_stop_time_update_read(data: Seq<u8>, q: nat, m: SpecTripUpdate, c: nat)
    requires
        trip_update_raw_ok(m, c),
        c + 1 >= 3,
        q + enc_all(trip_update_stop_time_update_part(m)).len() <= data.len() <= usize::MAX,
        data.subrange(q as int, (q + enc_all(trip_update_stop_time_update_part(m)).len()) as int) == enc_all(trip_update_stop_time_update_part(m)),
    ensures
        fold_fields(fields_at(trip_update_stop_time_update_part(m), q), SpecTripUpdate { trip: m.trip, ..trip_update_default() }, trip_update_step(data, c)) == Ok::<SpecTripUpdate, ErrorKind>(
            SpecTripUpdate { trip: m.trip, stop_time_update: m.stop_time_update, ..trip_update_default() },
        ),
{
    let p1 = trip_update_stop_time_update_part(m);
    let q1 = q;
    let step = trip_update_step(data, c);
    let m1 = SpecTripUpdate { trip: m.trip, ..trip_update_default() };
    let m2 = SpecTripUpdate { trip: m.trip, stop_time_update: m.stop_time_update, ..trip_update_default() };
    reveal(trip_update_stop_time_update_part);
    lemma_trip_update_stop_time_update_items(data, q1, m.stop_time_update, m1, c);
    assert(m1.stop_time_update + m.stop_time_update =~= m.stop_time_update);
}

proof fn lemma_trip_update_vehicle_read(data: Seq<u8>, q: nat, m: SpecTripUpdate, c: nat)
    requires
        trip_update_raw_ok(m, c),
        c + 1 >= 3,
        q + enc_all(trip_update_vehicle_part(m)).len() <= data.len() <= usize::MAX,
        data.subrange(q as int, (q + enc_all(trip_update_vehicle_part(m)).len()) as int) == enc_all(trip_update_vehicle_part(m)),
    ensures
        fold_fields(fields_at(trip_update_vehicle_part(m), q), SpecTripUpdate { trip: m.trip, stop_time_update: m.stop_time_update, ..trip_update_default() }, trip_update_step(data, c)) == Ok::<SpecTripUpdate, ErrorKind>(
            SpecTripUpdate { trip: m.trip, stop_time_update: m.stop_time_update, vehicle: m.vehicle, ..trip_update_default() },
        ),
{
    let p2 = trip_update_vehicle_part(m);
    let q2 = q;
    let step = trip_update_step(data, c);
    let m2 = SpecTripUpdate { trip: m.trip, stop_time_update: m.stop_time_update, ..trip_update_default() };
    let m3 = SpecTripUpdate { trip: m.trip, stop_time_update: m.stop_time_update, vehicle: m.vehicle, ..trip_update_default() };
    reveal(trip_update_vehicle_part);
    match m.vehicle {
        Some(x) => {
            lemma_enc_single(3u32, Enc::Bytes(vehicle_descriptor_encoded(x)), q2);
            lemma_field_read(data, q2, q2 + enc_all(p2).len(), c, 3u32, Enc::Bytes(vehicle_descriptor_encoded(x)));
            lemma_fold_single(field_at(3u32, Enc::Bytes(vehicle_descriptor_encoded(x)), q2), m2, step);
            reveal(trip_update_applied);
            let a = q2 + key_bytes(3nat, 2).len() + varint_bytes(vehicle_descriptor_encoded(x).len()).len();
            lemma_vehicle_descriptor_decoded(data, a, x, c);
            assert(trip_update_applied(data, field_at(3u32, Enc::Bytes(vehicle_descriptor_encoded(x)), q2), m2, c) == Ok::<SpecTripUpdate, ErrorKind>(m3));
        },
        None => {
                assert(p2 =~= Seq::<(u32, Enc)>::empty());
            },
    }
}

proof fn lemma_trip_update_timestamp_read(data: Seq<u8>, q: nat, m: SpecTripUpdate, c: nat)
    requires
        trip_update_raw_ok(m, c),
        c + 1 >= 3,
        q + enc_all(trip_update_timestamp_part(m)).len() <= data.len() <= usize::MAX,
        data.subrange(q as int, (q + enc_all(trip_update_timestamp_part(m)).len()) as int) == enc_all(trip_update_timestamp_part(m)),
    ensures
        fold_fields(fields_at(trip_update_timestamp_part(m), q), SpecTripUpdate { trip: m.trip, stop_time_update: m.stop_time_update, vehicle: m.vehicle, ..trip_update_default() }, trip_update_step(data, c)) == Ok::<SpecTripUpdate, ErrorKind>(
            SpecTripUpdate { trip: m.trip, stop_time_update: m.stop_time_update, vehicle: m.vehicle, timestamp: m.timestamp, ..trip_update_default() },
        ),
{
    let p3 = trip_update_timestamp_part(m);
    let q3 = q;
    let step = trip_update_step(data, c);
    let m3 = SpecTripUpdate { trip: m.trip, stop_time_update: m.stop_time_update, vehicle: m.vehicle, ..trip_update_default() };
    let m4 = SpecTripUpdate { trip: m.trip, stop_time_update: m.stop_time_update, vehicle: m.vehicle, timestamp: m.timestamp, ..trip_update_default() };
    reveal(trip_update_timestamp_part);
    match m.timestamp {
        Some(x) => {
            lemma_enc_single(4u32, Enc::Varint(x), q3);
            lemma_field_read(data, q3, q3 + enc_all(p3).len(), c, 4u32, Enc::Varint(x));
            lemma_fold_single(field_at(4u32, Enc::Varint(x), q3), m3, step);
            reveal(trip_update_applied);
            assert(trip_update_applied(data, field_at(4u32, Enc::Varint(x), q3), m3, c) == Ok::<SpecTripUpdate, ErrorKind>(m4));
        },
        None => {
                assert(p3 =~= Seq::<(u32, Enc)>::empty());
            },
    }
}

proof fn lemma_trip_update_delay_read(data: Seq<u8>, q: nat, m: SpecTripUpdate, c: nat)
    requires
        trip_update_raw_ok(m, c),
        c + 1 >= 3,
        q + enc_all(trip_update_delay_part(m)).len() <= data.len() <= usize::MAX,
        data.subrange(q as int, (q + enc_all(trip_update_delay_part(m)).len()) as int) == enc_all(trip_update_delay_part(m)),
    ensures
        fold_fields(fields_at(trip_update_delay_part(m), q), SpecTripUpdate { trip: m.trip, stop_time_update: m.stop_time_update, vehicle: m.vehicle, timestamp: m.timestamp, ..trip_update_default() }, trip_update_step(data, c)) == Ok::<SpecTripUpdate, ErrorKind>(
            SpecTripUpdate { trip: m.trip, stop_time_update: m.stop_time_update, vehicle: m.vehicle, timestamp: m.timestamp, delay: m.delay, ..trip_update_default() },
        ),
{
    let p4 = trip_update_delay_part(m);
    let q4 = q;
    let step = trip_update_step(data, c);
    let m4 = SpecTripUpdate { trip: m.trip, stop_time_update: m.stop_time_update, vehicle: m.vehicle, timestamp: m.timestamp, ..trip_update_default() };
    let m5 = SpecTripUpdate { trip: m.trip, stop_time_update: m.stop_time_update, vehicle: m.vehicle, timestamp: m.timestamp, delay: m.delay, ..trip_update_default() };
    reveal(trip_update_delay_part);
    match m.delay {
        Some(x) => {
            lemma_enc_single(5u32, Enc::Varint(x as u64), q4);
            lemma_field_read(data, q4, q4 + enc_all(p4).len(), c, 5u32, Enc::Varint(x as u64));
            lemma_fold_single(field_at(5u32, Enc::Varint(x as u64), q4), m4, step);
            reveal(trip_update_applied);
            lemma_i32_wire(x);
            assert(trip_update_applied(data, field_at(5u32, Enc::Varint(x as u64), q4), m4, c) == Ok::<SpecTripUpdate, ErrorKind>(m5));
        },
        None => {
                assert(p4 =~= Seq::<(u32, Enc)>::empty());
            },
    }
}

proof fn lemma_trip_update_trip_properties_read(data: Seq<u8>, q: nat, m: SpecTripUpdate, c: nat)
    requires
        trip_update_raw_ok(m, c),
        c + 1 >= 3,
        q + enc_all(trip_update_trip_properties_part(m)).len() <= data.len() <= usize::MAX,
        data.subrange(q as int, (q + enc_all(trip_update_trip_properties_part(m)).len()) as int) == enc_all(trip_update_trip_properties_part(m)),
    ensures
        fold_fields(fields_at(trip_update_trip_properties_part(m), q), SpecTripUpdate { trip: m.trip, stop_time_update: m.stop_time_update, vehicle: m.vehicle, timestamp: m.timestamp, delay: m.delay, ..trip_update_default() }, trip_update_step(data, c)) == Ok::<SpecTripUpdate, ErrorKind>(
            SpecTripUpdate { trip: m.trip, stop_time_update: m.stop_time_update, vehicle: m.vehicle, timestamp: m.timestamp, delay: m.delay, trip_properties: m.trip_properties, ..trip_update_default() },
        ),
{
    let p5 = trip_update_trip_properties_part(m);
    let q5 = q;
    let step = trip_update_step(data, c);
    let m5 = SpecTripUpdate { trip: m.trip, stop_time_update: m.stop_time_update, vehicle: m.vehicle, timestamp: m.timestamp, delay: m.delay, ..trip_update_default() };
    let m6 = SpecTripUpdate { trip: m.trip, stop_time_update: m.stop_time_update, vehicle: m.vehicle, timestamp: m.timestamp, delay: m.delay, trip_properties: m.trip_properties, ..trip_update_default() };
    reveal(trip_update_trip_properties_part);
    match m.trip_properties {
        Some(x) => {
            lemma_enc_single(6u32, Enc::Bytes(x), q5);
            lemma_field_read(data, q5, q5 + enc_all(p5).len(), c, 6u32, Enc::Bytes(x));
            lemma_fold_single(field_at(6u32, Enc::Bytes(x), q5), m5, step);
            reveal(trip_update_applied);
            let a = q5 + key_bytes(6nat, 2).len() + varint_bytes(x.len()).len();
            lemma_check_in_place(data, a, x, RawKind::TripProperties, c);
            assert(Seq::<u8>::empty() + x =~= x);
            assert(trip_update_applied(data, field_at(6u32, Enc::Bytes(x), q5), m5, c) == Ok::<SpecTripUpdate, ErrorKind>(m6));
        },
        None => {
                assert(p5 =~= Seq::<(u32, Enc)>::empty());
            },
    }
}

proof fn lemma_trip_update_fold(data: Seq<u8>, s: nat, m: SpecTripUpdate, c: nat)
    requires
        trip_update_raw_ok(m, c),
        c + 1 >= 3,
        s + enc_all(trip_update_encs(m)).len() <= data.len() <= usize::MAX,
        data.subrange(s as int, (s + enc_all(trip_update_encs(m)).len()) as int) == enc_all(trip_update_encs(m)),
    ensures
        fold_fields(fields_at(trip_update_encs(m), s), trip_update_default(), trip_update_step(data, c)) == Ok::<
            SpecTripUpdate,
            ErrorKind,
        >(m),
{
    let es = trip_update_encs(m);
    let step = trip_update_step(data, c);
    let p0 = trip_update_trip_part(m);
    let p1 = trip_update_stop_time_update_part(m);
    let p2 = trip_update_vehicle_part(m);
    let p3 = trip_update_timestamp_part(m);
    let p4 = trip_update_delay_part(m);
    let p5 = trip_update_trip_properties_part(m);
    let r5 = p5;
    let r4 = p4 + r5;
    let r3 = p3 + r4;
    let r2 = p2 + r3;
    let r1 = p1 + r2;
    let r0 = p0 + r1;
    assert(es == r0);
    let m0 = trip_update_default();
    let q0 = s;
    let m1 = SpecTripUpdate { trip: m.trip, ..trip_update_default() };
    let q1 = q0 + enc_all(p0).len();
    assert(fold_fields(fields_at(r0, q0), m0, step) == fold_fields(fields_at(r1, q1), m1, step)
        && q1 + enc_all(r1).len() <= data.len()
        && data.subrange(q1 as int, (q1 + enc_all(r1).len()) as int) == enc_all(r1)) by {
        lemma_enc_add(p0, r1, q0);
        lemma_subrange_split(data, q0, enc_all(p0), enc_all(r1));
        lemma_fold_add(fields_at(p0, q0), fields_at(r1, q1), m0, step);
        lemma_trip_update_trip_read(data, q0, m, c);
    }
    let m2 = SpecTripUpdate { trip: m.trip, stop_time_update: m.stop_time_update, ..trip_update_default() };
    let q2 = q1 + enc_all(p1).len();
    assert(fold_fields(fields_at(r1, q1), m1, step) == fold_fields(fields_at(r2, q2), m2, step)
        && q2 + enc_all(r2).len() <= data.len()
        && data.subrange(q2 as int, (q2 + enc_all(r2).len()) as int) == enc_all(r2)) by {
        lemma_enc_add(p1, r2, q1);
        lemma_subrange_split(data, q1, enc_all(p1), enc_all(r2));
        lemma_fold_add(fields_at(p1, q1), fields_at(r2, q2), m1, step);
        lemma_trip_update_stop_time_update_read(data, q1, m, c);
    }
    let m3 = SpecTripUpdate { trip: m.trip, stop_time_update: m.stop_time_update, vehicle: m.vehicle, ..trip_update_default() };
    let q3 = q2 + enc_all(p2).len();
    assert(fold_fields(fields_at(r2, q2), m2, step) == fold_fields(fields_at(r3, q3), m3, step)
        && q3 + enc_all(r3).len() <= data.len()
        && data.subrange(q3 as int, (q3 + enc_all(r3).len()) as int) == enc_all(r3)) by {
        lemma_enc_add(p2, r3, q2);
        lemma_subrange_split(data, q2, enc_all(p2), enc_all(r3));
        lemma_fold_add(fields_at(p2, q2), fields_at(r3, q3), m2, step);
        lemma_trip_update_vehicle_read(data, q2, m, c);
    }
    let m4 = SpecTripUpdate { trip: m.trip, stop_time_update: m.stop_time_update, vehicle: m.vehicle, timestamp: m.timestamp, ..trip_update_default() };
    let q4 = q3 + enc_all(p3).len();
    assert(fold_fields(fields_at(r3, q3), m3, step) == fold_fields(fields_at(r4, q4), m4, step)
        && q4 + enc_all(r4).len() <= data.len()
        && data.subrange(q4 as int, (q4 + enc_all(r4).len()) as int) == enc_all(r4)) by {
        lemma_enc_add(p3, r4, q3);
        lemma_subrange_split(data, q3, enc_all(p3), enc_all(r4));
        lemma_fold_add(fields_at(p3, q3), fields_at(r4, q4), m3, step);
        lemma_trip_update_timestamp_read(data, q3, m, c);
    }
    let m5 = SpecTripUpdate { trip: m.trip, stop_time_update: m.stop_time_update, vehicle: m.vehicle, timestamp: m.timestamp, delay: m.delay, ..trip_update_default() };
    let q5 = q4 + enc_all(p4).len();
    assert(fold_fields(fields_at(r4, q4), m4, step) == fold_fields(fields_at(r5, q5), m5, step)
        && q5 + enc_all(r5).len() <= data.len()
        && data.subrange(q5 as int, (q5 + enc_all(r5).len()) as int) == enc_all(r5)) by {
        lemma_enc_add(p4, r5, q4);
        lemma_subrange_split(data, q4, enc_all(p4), enc_all(r5));
        lemma_fold_add(fields_at(p4, q4), fields_at(r5, q5), m4, step);
        lemma_trip_update_delay_read(data, q4, m, c);
    }
    let m6 = SpecTripUpdate { trip: m.trip, stop_time_update: m.stop_time_update, vehicle: m.vehicle, timestamp: m.timestamp, delay: m.delay, trip_properties: m.trip_properties, ..trip_update_default() };
    let q6 = q5 + enc_all(p5).len();
    lemma_trip_update_trip_properties_read(data, q5, m, c);
    assert(m6 == m);
}

/// Decoding the bytes of a `TripUpdate` gives it back.
pub proof fn lemma_trip_update_decoded(data: Seq<u8>, s: nat, m: SpecTripUpdate, ctx: nat)
    requires
        trip_update_raw_ok(m, (ctx - 1) as nat),
        ctx >= 3,
        s + trip_update_encoded(m).len() <= data.len() <= usize::MAX,
        data.subrange(s as int, (s + trip_update_encoded(m).len()) as int) == trip_update_encoded(m),
    ensures
        trip_update_merged(data, s, s + trip_update_encoded(m).len(), ctx, trip_update_default()) == Ok::<
            SpecTripUpdate,
            ErrorKind,
        >(m),
{
    lemma_trip_update_encs(m);
    lemma_fields_read(data, s, trip_update_encs(m), (ctx - 1) as nat);
    lemma_trip_update_fold(data, s, m, (ctx - 1) as nat);
}

/// Every part of a `StopTimeEvent` kept as raw bytes, at any depth, passes the
/// check that decoding gives it when the fields of the `StopTimeEvent` are read
/// with budget `c`.
pub open spec fn stop_time_event_raw_ok(m: SpecStopTimeEvent, c: nat) -> bool {
    true
}

/// Field `delay` of a `StopTimeEvent` as it is written.
#[verifier::opaque]
pub open spec fn stop_time_event_delay_part(m: SpecStopTimeEvent) -> Seq<(u32, Enc)> {
    match m.delay {
        Some(x) => seq![(1u32, Enc::Varint(x as u64))],
        None => Seq::empty(),
    }
}

/// Field `time` of a `StopTimeEvent` as it is written.
#[verifier::opaque]
pub open spec fn stop_time_event_time_part(m: SpecStopTimeEvent) -> Seq<(u32, Enc)> {
    match m.time {
        Some(x) => seq![(2u32, Enc::Varint(x as u64))],
        None => Seq::empty(),
    }
}

/// Field `uncertainty` of a `StopTimeEvent` as it is written.
#[verifier::opaque]
pub open spec fn stop_time_event_uncertainty_part(m: SpecStopTimeEvent) -> Seq<(u32, Enc)> {
    match m.uncertainty {
        Some(x) => seq![(3u32, Enc::Varint(x as u64))],
        None => Seq::empty(),
    }
}

/// Field `scheduled_time` of a `StopTimeEvent` as it is written.
#[verifier::opaque]
pub open spec fn stop_time_event_scheduled_time_part(m: SpecStopTimeEvent) -> Seq<(u32, Enc)> {
    match m.scheduled_time {
        Some(x) => seq![(4u32, Enc::Varint(x as u64))],
        None => Seq::empty(),
    }
}

/// The fields of a `StopTimeEvent` as they are written.
pub open spec fn stop_time_event_encs(m: SpecStopTimeEvent) -> Seq<(u32, Enc)> {
    stop_time_event_delay_part(m) + (stop_time_event_time_part(m) + (stop_time_event_uncertainty_part(m) + (stop_time_event_scheduled_time_part(m))))
}

proof fn lemma_stop_time_event_encs(m: SpecStopTimeEvent)
    ensures
        stop_time_event_encoded(m) == enc_all(stop_time_event_encs(m)),
        tags_ok(stop_time_event_encs(m)),
{
    reveal(stop_time_event_encoded);
    let p0 = stop_time_event_delay_part(m);
    let b0 = opt_varint_field(
            1,
            match m.delay {
                Some(v) => Some(v as u64),
                None => None,
            },
        );
    assert(enc_all(p0) == b0 && tags_ok(p0)) by {
        reveal(stop_time_event_delay_part);
        match m.delay {
            Some(x) => {
                lemma_enc_single(1u32, Enc::Varint(x as u64), 0);
                assert(enc_all(p0) =~= b0);
            },
            None => {
                assert(enc_all(p0) =~= b0);
            },
        }
    }
    let p1 = stop_time_event_time_part(m);
    let b1 = opt_varint_field(
            2,
            match m.time {
                Some(v) => Some(v as u64),
                None => None,
            },
        );
    assert(enc_all(p1) == b1 && tags_ok(p1)) by {
        reveal(stop_time_event_time_part);
        match m.time {
            Some(x) => {
                lemma_enc_single(2u32, Enc::Varint(x as u64), 0);
                assert(enc_all(p1) =~= b1);
            },
            None => {
                assert(enc_all(p1) =~= b1);
            },
        }
    }
    let p2 = stop_time_event_uncertainty_part(m);
    let b2 = opt_varint_field(
            3,
            match m.uncertainty {
                Some(v) => Some(v as u64),
                None => None,
            },
        );
    assert(enc_all(p2) == b2 && tags_ok(p2)) by {
        reveal(stop_time_event_uncertainty_part);
        match m.uncertainty {
            Some(x) => {
                lemma_enc_single(3u32, Enc::Varint(x as u64), 0);
                assert(enc_all(p2) =~= b2);
            },
            None => {
                assert(enc_all(p2) =~= b2);
            },
        }
    }
    let p3 = stop_time_event_scheduled_time_part(m);
    let b3 = opt_varint_field(
            4,
            match m.scheduled_time {
                Some(v) => Some(v as u64),
                None => None,
            },
        );
    assert(enc_all(p3) == b3 && tags_ok(p3)) by {
        reveal(stop_time_event_scheduled_time_part);
        match m.scheduled_time {
            Some(x) => {
                lemma_enc_single(4u32, Enc::Varint(x as u64), 0);
                assert(enc_all(p3) =~= b3);
            },
            None => {
                assert(enc_all(p3) =~= b3);
            },
        }
    }
    let r3 = p3;
    let s3 = b3;
    let r2 = p2 + r3;
    let s2 = b2 + s3;
    lemma_enc_add(p2, r3, 0);
    let r1 = p1 + r2;
    let s1 = b1 + s2;
    lemma_enc_add(p1, r2, 0);
    let r0 = p0 + r1;
    let s0 = b0 + s1;
    lemma_enc_add(p0, r1, 0);
    let l0 = b0;
    let l1 = l0 + b1;
    let l2 = l1 + b2;
    let l3 = l2 + b3;
    assert(l0 + s1 == s0);
    lemma_add_assoc(l0, b1, s2);
    assert(l1 + s2 == s0);
    lemma_add_assoc(l1, b2, s3);
    assert(l2 + s3 == s0);
    assert(stop_time_event_encoded(m) == l3);
    assert(stop_time_event_encs(m) == r0);
}

proof fn lemma_stop_time_event_delay_read(data: Seq<u8>, q: nat, m: SpecStopTimeEvent, c: nat)
    requires
        stop_time_event_raw_ok(m, c),
        c + 1 >= 1,
        q + enc_all(stop_time_event_delay_part(m)).len() <= data.len() <= usize::MAX,
        data.subrange(q as int, (q + enc_all(stop_time_event_delay_part(m)).len()) as int) == enc_all(stop_time_event_delay_part(m)),
    ensures
        fold_fields(fields_at(stop_time_event_delay_part(m), q), stop_time_event_default(), stop_time_event_step(data, c)) == Ok::<SpecStopTimeEvent, ErrorKind>(
            SpecStopTimeEvent { delay: m.delay, ..stop_time_event_default() },
        ),
{
    let p0 = stop_time_event_delay_part(m);
    let q0 = q;
    let step = stop_time_event_step(data, c);
    let m0 = stop_time_event_default();
    let m1 = SpecStopTimeEvent { delay: m.delay, ..stop_time_event_default() };
    reveal(stop_time_event_delay_part);
    match m.delay {
        Some(x) => {
            lemma_enc_single(1u32, Enc::Varint(x as u64), q0);
            lemma_field_read(data, q0, q0 + enc_all(p0).len(), c, 1u32, Enc::Varint(x as u64));
            lemma_fold_single(field_at(1u32, Enc::Varint(x as u64), q0), m0, step);
            reveal(stop_time_event_applied);
            lemma_i32_wire(x);
            assert(stop_time_event_applied(data, field_at(1u32, Enc::Varint(x as u64), q0), m0, c) == Ok::<SpecStopTimeEvent, ErrorKind>(m1));
        },
        None => {
                assert(p0 =~= Seq::<(u32, Enc)>::empty());
            },
    }
}

proof fn lemma_stop_time_event_time_read(data: Seq<u8>, q: nat, m: SpecStopTimeEvent, c: nat)
    requires
        stop_time_event_raw_ok(m, c),
        c + 1 >= 1,
        q + enc_all(stop_time_event_time_part(m)).len() <= data.len() <= usize::MAX,
        data.subrange(q as int, (q + enc_all(stop_time_event_time_part(m)).len()) as int) == enc_all(stop_time_event_time_part(m)),
    ensures
        fold_fields(fields_at(stop_time_event_time_part(m), q), SpecStopTimeEvent { delay: m.delay, ..stop_time_event_default() }, stop_time_event_step(data, c)) == Ok::<SpecStopTimeEvent, ErrorKind>(
            SpecStopTimeEvent { delay: m.delay, time: m.time, ..stop_time_event_default() },
        ),
{
    let p1 = stop_time_event_time_part(m);
    let q1 = q;
    let step = stop_time_event_step(data, c);
    let m1 = SpecStopTimeEvent { delay: m.delay, ..stop_time_event_default() };
    let m2 = SpecStopTimeEvent { delay: m.delay, time: m.time, ..stop_time_event_default() };
    reveal(stop_time_event_time_part);
    match m.time {
        Some(x) => {
            lemma_enc_single(2u32, Enc::Varint(x as u64), q1);
            lemma_field_read(data, q1, q1 + enc_all(p1).len(), c, 2u32, Enc::Varint(x as u64));
            lemma_fold_single(field_at(2u32, Enc::Varint(x as u64), q1), m1, step);
            reveal(stop_time_event_applied);
            lemma_i64_wire(x);
            assert(stop_time_event_applied(data, field_at(2u32, Enc::Varint(x as u64), q1), m1, c) == Ok::<SpecStopTimeEvent, ErrorKind>(m2));
        },
        None => {
                assert(p1 =~= Seq::<(u32, Enc)>::empty());
            },
    }
}

proof fn lemma_stop_time_event_uncertainty_read(data: Seq<u8>, q: nat, m: SpecStopTimeEvent, c: nat)
    requires
        stop_time_event_raw_ok(m, c),
        c + 1 >= 1,
        q + enc_all(stop_time_event_uncertainty_part(m)).len() <= data.len() <= usize::MAX,
        data.subrange(q as int, (q + enc_all(stop_time_event_uncertainty_part(m)).len()) as int) == enc_all(stop_time_event_uncertainty_part(m)),
    ensures
        fold_fields(fields_at(stop_time_event_uncertainty_part(m), q), SpecStopTimeEvent { delay: m.delay, time: m.time, ..stop_time_event_default() }, stop_time_event_step(data, c)) == Ok::<SpecStopTimeEvent, ErrorKind>(
            SpecStopTimeEvent { delay: m.delay, time: m.time, uncertainty: m.uncertainty, ..stop_time_event_default() },
        ),
{
    let p2 = stop_time_event_uncertainty_part(m);
    let q2 = q;
    let step = stop_time_event_step(data, c);
    let m2 = SpecStopTimeEvent { delay: m.delay, time: m.time, ..stop_time_event_default() };
    let m3 = SpecStopTimeEvent { delay: m.delay, time: m.time, uncertainty: m.uncertainty, ..stop_time_event_default() };
    reveal(stop_time_event_uncertainty_part);
    match m.uncertainty {
        Some(x) => {
            lemma_enc_single(3u32, Enc::Varint(x as u64), q2);
            lemma_field_read(data, q2, q2 + enc_all(p2).len(), c, 3u32, Enc::Varint(x as u64));
            lemma_fold_single(field_at(3u32, Enc::Varint(x as u64), q2), m2, step);
            reveal(stop_time_event_applied);
            lemma_i32_wire(x);
            assert(stop_time_event_applied(data, field_at(3u32, Enc::Varint(x as u64), q2), m2, c) == Ok::<SpecStopTimeEvent, ErrorKind>(m3));
        },
        None => {
                assert(p2 =~= Seq::<(u32, Enc)>::empty());
            },
    }
}

proof fn lemma_stop_time_event_scheduled_time_read(data: Seq<u8>, q: nat, m: SpecStopTimeEvent, c: nat)
    requires
        stop_time_event_raw_ok(m, c),
        c + 1 >= 1,
        q + enc_all(stop_time_event_scheduled_time_part(m)).len() <= data.len() <= usize::MAX,
        data.subrange(q as int, (q + enc_all(stop_time_event_scheduled_time_part(m)).len()) as int) == enc_all(stop_time_event_scheduled_time_part(m)),
    ensures
        fold_fields(fields_at(stop_time_event_scheduled_time_part(m), q), SpecStopTimeEvent { delay: m.delay, time: m.time, uncertainty: m.uncertainty, ..stop_time_event_default() }, stop_time_event_step(data, c)) == Ok::<SpecStopTimeEvent, ErrorKind>(
            SpecStopTimeEvent { delay: m.delay, time: m.time, uncertainty: m.uncertainty, scheduled_time: m.scheduled_time, ..stop_time_event_default() },
        ),
{
    let p3 = stop_time_event_scheduled_time_part(m);
    let q3 = q;
    let step = stop_time_event_step(data, c);
    let m3 = SpecStopTimeEvent { delay: m.delay, time: m.time, uncertainty: m.uncertainty, ..stop_time_event_default() };
    let m4 = SpecStopTimeEvent { delay: m.delay, time: m.time, uncertainty: m.uncertainty, scheduled_time: m.scheduled_time, ..stop_time_event_default() };
    reveal(stop_time_event_scheduled_time_part);
    match m.scheduled_time {
        Some(x) => {
            lemma_enc_single(4u32, Enc::Varint(x as u64), q3);
            lemma_field_read(data, q3, q3 + enc_all(p3).len(), c, 4u32, Enc::Varint(x as u64));
            lemma_fold_single(field_at(4u32, Enc::Varint(x as u64), q3), m3, step);
            reveal(stop_time_event_applied);
            lemma_i64_wire(x);
            assert(stop_time_event_applied(data, field_at(4u32, Enc::Varint(x as u64), q3), m3, c) == Ok::<SpecStopTimeEvent, ErrorKind>(m4));
        },
        None => {
                assert(p3 =~= Seq::<(u32, Enc)>::empty());
            },
    }
}

proof fn lemma_stop_time_event_fold(data: Seq<u8>, s: nat, m: SpecStopTimeEvent, c: nat)
    requires
        stop_time_event_raw_ok(m, c),
        c + 1 >= 1,
        s + enc_all(stop_time_event_encs(m)).len() <= data.len() <= usize::MAX,
        data.subrange(s as int, (s + enc_all(stop_time_event_encs(m)).len()) as int) == enc_all(stop_time_event_encs(m)),
    ensures
        fold_fields(fields_at(stop_time_event_encs(m), s), stop_time_event_default(), stop_time_event_step(data, c)) == Ok::<
            SpecStopTimeEvent,
            ErrorKind,
        >(m),
{
    let es = stop_time_event_encs(m);
    let step = stop_time_event_step(data, c);
    let p0 = stop_time_event_delay_part(m);
    let p1 = stop_time_event_time_part(m);
    let p2 = stop_time_event_uncertainty_part(m);
    let p3 = stop_time_event_scheduled_time_part(m);
    let r3 = p3;
    let r2 = p2 + r3;
    let r1 = p1 + r2;
    let r0 = p0 + r1;
    assert(es == r0);
    let m0 = stop_time_event_default();
    let q0 = s;
    let m1 = SpecStopTimeEvent { delay: m.delay, ..stop_time_event_default() };
    let q1 = q0 + enc_all(p0).len();
    assert(fold_fields(fields_at(r0, q0), m0, step) == fold_fields(fields_at(r1, q1), m1, step)
        && q1 + enc_all(r1).len() <= data.len()
        && data.subrange(q1 as int, (q1 + enc_all(r1).len()) as int) == enc_all(r1)) by {
        lemma_enc_add(p0, r1, q0);
        lemma_subrange_split(data, q0, enc_all(p0), enc_all(r1));
        lemma_fold_add(fields_at(p0, q0), fields_at(r1, q1), m0, step);
        lemma_stop_time_event_delay_read(data, q0, m, c);
    }
    let m2 = SpecStopTimeEvent { delay: m.delay, time: m.time, ..stop_time_event_default() };
    let q2 = q1 + enc_all(p1).len();
    assert(fold_fields(fields_at(r1, q1), m1, step) == fold_fields(fields_at(r2, q2), m2, step)
        && q2 + enc_all(r2).len() <= data.len()
        && data.subrange(q2 as int, (q2 + enc_all(r2).len()) as int) == enc_all(r2)) by {
        lemma_enc_add(p1, r2, q1);
        lemma_subrange_split(data, q1, enc_all(p1), enc_all(r2));
        lemma_fold_add(fields_at(p1, q1), fields_at(r2, q2), m1, step);
        lemma_stop_time_event_time_read(data, q1, m, c);
    }
    let m3 = SpecStopTimeEvent { delay: m.delay, time: m.time, uncertainty: m.uncertainty, ..stop_time_event_default() };
    let q3 = q2 + enc_all(p2).len();
    assert(fold_fields(fields_at(r2, q2), m2, step) == fold_fields(fields_at(r3, q3), m3, step)
        && q3 + enc_all(r3).len() <= data.len()
        && data.subrange(q3 as int, (q3 + enc_all(r3).len()) as int) == enc_all(r3)) by {
        lemma_enc_add(p2, r3, q2);
        lemma_subrange_split(data, q2, enc_all(p2), enc_all(r3));
        lemma_fold_add(fields_at(p2, q2), fields_at(r3, q3), m2, step);
        lemma_stop_time_event_uncertainty_read(data, q2, m, c);
    }
    let m4 = SpecStopTimeEvent { delay: m.delay, time: m.time, uncertainty: m.uncertainty, scheduled_time: m.scheduled_time, ..stop_time_event_default() };
    let q4 = q3 + enc_all(p3).len();
    lemma_stop_time_event_scheduled_time_read(data, q3, m, c);
    assert(m4 == m);
}

/// Decoding the bytes of a `StopTimeEvent` gives it back.
pub proof fn lemma_stop_time_event_decoded(data: Seq<u8>, s: nat, m: SpecStopTimeEvent, ctx: nat)
    requires
        stop_time_event_raw_ok(m, (ctx - 1) as nat),
        ctx >= 1,
        s + stop_time_event_encoded(m).len() <= data.len() <= usize::MAX,
        data.subrange(s as int, (s + stop_time_event_encoded(m).len()) as int) == stop_time_event_encoded(m),
    ensures
        stop_time_event_merged(data, s, s + stop_time_event_encoded(m).len(), ctx, stop_time_event_default()) == Ok::<
            SpecStopTimeEvent,
            ErrorKind,
        >(m),
{
    lemma_stop_time_event_encs(m);
    lemma_fields_read(data, s, stop_time_event_encs(m), (ctx - 1) as nat);
    lemma_stop_time_event_fold(data, s, m, (ctx - 1) as nat);
}

/// Every part of a `StopTimeUpdate` kept as raw bytes, at any depth, passes the
/// check that decoding gives it when the fields of the `StopTimeUpdate` are read
/// with budget `c`.
pub open spec fn stop_time_update_raw_ok(m: SpecStopTimeUpdate, c: nat) -> bool {
    (m.arrival matches Some(x) ==> stop_time_event_raw_ok(x, (c - 1) as nat))
    && (m.departure matches Some(x) ==> stop_time_event_raw_ok(x, (c - 1) as nat))
    && (m.stop_time_properties matches Some(b) ==> raw_ok(RawKind::StopTimeProperties, b, c))
}

/// Field `stop_sequence` of a `StopTimeUpdate` as it is written.
#[verifier::opaque]
pub open spec fn stop_time_update_stop_sequence_part(m: SpecStopTimeUpdate) -> Seq<(u32, Enc)> {
    match m.stop_sequence {
        Some(x) => seq![(1u32, Enc::Varint(x as u64))],
        None => Seq::empty(),
    }
}

/// Field `arrival` of a `StopTimeUpdate` as it is written.
#[verifier::opaque]
pub open spec fn stop_time_update_arrival_part(m: SpecStopTimeUpdate) -> Seq<(u32, Enc)> {
    match m.arrival {
        Some(x) => seq![(2u32, Enc::Bytes(stop_time_event_encoded(x)))],
        None => Seq::empty(),
    }
}

/// Field `departure` of a `StopTimeUpdate` as it is written.
#[verifier::opaque]
pub open spec fn stop_time_update_departure_part(m: SpecStopTimeUpdate) -> Seq<(u32, Enc)> {
    match m.departure {
        Some(x) => seq![(3u32, Enc::Bytes(stop_time_event_encoded(x)))],
        None => Seq::empty(),
    }
}

/// Field `stop_id` of a `StopTimeUpdate` as it is written.
#[verifier::opaque]
pub open spec fn stop_time_update_stop_id_part(m: SpecStopTimeUpdate) -> Seq<(u32, Enc)> {
    match m.stop_id {
        Some(x) => seq![(4u32, Enc::Bytes(encode_utf8(x)))],
        None => Seq::empty(),
    }
}

/// Field `schedule_relationship` of a `StopTimeUpdate` as it is written.
#[verifier::opaque]
pub open spec fn stop_time_update_schedule_relationship_part(m: SpecStopTimeUpdate) -> Seq<(u32, Enc)> {
    match m.schedule_relationship {
        Some(x) => seq![(5u32, Enc::Varint(x as u64))],
        None => Seq::empty(),
    }
}

/// Field `stop_time_properties` of a `StopTimeUpdate` as it is written.
#[verifier::opaque]
pub open spec fn stop_time_update_stop_time_properties_part(m: SpecStopTimeUpdate) -> Seq<(u32, Enc)> {
    match m.stop_time_properties {
        Some(x) => seq![(6u32, Enc::Bytes(x))],
        None => Seq::empty(),
    }
}

/// Field `departure_occupancy_status` of a `StopTimeUpdate` as it is written.
#[verifier::opaque]
pub open spec fn stop_time_update_departure_occupancy_status_part(m: SpecStopTimeUpdate) -> Seq<(u32, Enc)> {
    match m.departure_occupancy_status {
        Some(x) => seq![(7u32, Enc::Varint(x as u64))],
        None => Seq::empty(),
    }
}

/// The fields of a `StopTimeUpdate` as they are written.
pub open spec fn stop_time_update_encs(m: SpecStopTimeUpdate) -> Seq<(u32, Enc)> {
    stop_time_update_stop_sequence_part(m) + (stop_time_update_arrival_part(m) + (stop_time_update_departure_part(m) + (stop_time_update_stop_id_part(m) + (stop_time_update_schedule_relationship_part(m) + (stop_time_update_stop_time_properties_part(m) + (stop_time_update_departure_occupancy_status_part(m)))))))
}

#[verifier::rlimit(100)]
proof fn lemma_stop_time_update_encs(m: SpecStopTimeUpdate)
    ensures
        stop_time_update_encoded(m) == enc_all(stop_time_update_encs(m)),
        tags_ok(stop_time_update_encs(m)),
{
    reveal(stop_time_update_encoded);
    let p0 = stop_time_update_stop_sequence_part(m);
    let b0 = opt_varint_field(
            1,
            match m.stop_sequence {
                Some(v) => Some(v as u64),
                None => None,
            },
        );
    assert(enc_all(p0) == b0 && tags_ok(p0)) by {
        reveal(stop_time_update_stop_sequence_part);
        match m.stop_sequence {
            Some(x) => {
                lemma_enc_single(1u32, Enc::Varint(x as u64), 0);
                assert(enc_all(p0) =~= b0);
            },
            None => {
                assert(enc_all(p0) =~= b0);
            },
        }
    }
    let p1 = stop_time_update_arrival_part(m);
    let b1 = opt_bytes_field(
            2,
            match m.arrival {
                Some(x) => Some(stop_time_event_encoded(x)),
                None => None,
            },
        );
    assert(enc_all(p1) == b1 && tags_ok(p1)) by {
        reveal(stop_time_update_arrival_part);
        match m.arrival {
            Some(x) => {
                lemma_enc_single(2u32, Enc::Bytes(stop_time_event_encoded(x)), 0);
                assert(enc_all(p1) =~= b1);
            },
            None => {
                assert(enc_all(p1) =~= b1);
            },
        }
    }
    let p2 = stop_time_update_departure_part(m);
    let b2 = opt_bytes_field(
            3,
            match m.departure {
                Some(x) => Some(stop_time_event_encoded(x)),
                None => None,
            },
        );
    assert(enc_all(p2) == b2 && tags_ok(p2)) by {
        reveal(stop_time_update_departure_part);
        match m.departure {
            Some(x) => {
                lemma_enc_single(3u32, Enc::Bytes(stop_time_event_encoded(x)), 0);
                assert(enc_all(p2) =~= b2);
            },
            None => {
                assert(enc_all(p2) =~= b2);
            },
        }
    }
    let p3 = stop_time_update_stop_id_part(m);
    let b3 = match m.stop_id {
            Some(x) => string_field(4, x),
            None => Seq::empty(),
        };
    assert(enc_all(p3) == b3 && tags_ok(p3)) by {
        reveal(stop_time_update_stop_id_part);
        match m.stop_id {
            Some(x) => {
                lemma_enc_single(4u32, Enc::Bytes(encode_utf8(x)), 0);
                assert(enc_all(p3) =~= b3);
            },
            None => {
                assert(enc_all(p3) =~= b3);
            },
        }
    }
    let p4 = stop_time_update_schedule_relationship_part(m);
    let b4 = opt_varint_field(
            5,
            match m.schedule_relationship {
                Some(v) => Some(v as u64),
                None => None,
            },
        );
    assert(enc_all(p4) == b4 && tags_ok(p4)) by {
        reveal(stop_time_update_schedule_relationship_part);
        match m.schedule_relationship {
            Some(x) => {
                lemma_enc_single(5u32, Enc::Varint(x as u64), 0);
                assert(enc_all(p4) =~= b4);
            },
            None => {
                assert(enc_all(p4) =~= b4);
            },
        }
    }
    let p5 = stop_time_update_stop_time_properties_part(m);
    let b5 = opt_bytes_field(6, m.stop_time_properties);
    assert(enc_all(p5) == b5 && tags_ok(p5)) by {
        reveal(stop_time_update_stop_time_properties_part);
        match m.stop_time_properties {
            Some(x) => {
                lemma_enc_single(6u32, Enc::Bytes(x), 0);
                assert(enc_all(p5) =~= b5);
            },
            None => {
                assert(enc_all(p5) =~= b5);
            },
        }
    }
    let p6 = stop_time_update_departure_occupancy_status_part(m);
    let b6 = opt_varint_field(
            7,
            match m.departure_occupancy_status {
                Some(v) => Some(v as u64),
                None => None,
            },
        );
    assert(enc_all(p6) == b6 && tags_ok(p6)) by {
        reveal(stop_time_update_departure_occupancy_status_part);
        match m.departure_occupancy_status {
            Some(x) => {
                lemma_enc_single(7u32, Enc::Varint(x as u64), 0);
                assert(enc_all(p6) =~= b6);
            },
            None => {
                assert(enc_all(p6) =~= b6);
            },
        }
    }
    let r6 = p6;
    let s6 = b6;
    let r5 = p5 + r6;
    let s5 = b5 + s6;
    lemma_enc_add(p5, r6, 0);
    let r4 = p4 + r5;
    let s4 = b4 + s5;
    lemma_enc_add(p4, r5, 0);
    let r3 = p3 + r4;
    let s3 = b3 + s4;
    lemma_enc_add(p3, r4, 0);
    let r2 = p2 + r3;
    let s2 = b2 + s3;
    lemma_enc_add(p2, r3, 0);
    let r1 = p1 + r2;
    let s1 = b1 + s2;
    lemma_enc_add(p1, r2, 0);
    let r0 = p0 + r1;
    let s0 = b0 + s1;
    lemma_enc_add(p0, r1, 0);
    let l0 = b0;
    let l1 = l0 + b1;
    let l2 = l1 + b2;
    let l3 = l2 + b3;
    let l4 = l3 + b4;
    let l5 = l4 + b5;
    let l6 = l5 + b6;
    assert(l0 + s1 == s0);
    lemma_add_assoc(l0, b1, s2);
    assert(l1 + s2 == s0);
    lemma_add_assoc(l1, b2, s3);
    assert(l2 + s3 == s0);
    lemma_add_assoc(l2, b3, s4);
    assert(l3 + s4 == s0);
    lemma_add_assoc(l3, b4, s5);
    assert(l4 + s5 == s0);
    lemma_add_assoc(l4, b5, s6);
    assert(l5 + s6 == s0);
    assert(stop_time_update_encoded(m) == l6);
    assert(stop_time_update_encs(m) == r0);
}

proof fn lemma_stop_time_update_stop_sequence_read(data: Seq<u8>, q: nat, m: SpecStopTimeUpdate, c: nat)
    requires
        stop_time_update_raw_ok(m, c),
        c + 1 >= 2,
        q + enc_all(stop_time_update_stop_sequence_part(m)).len() <= data.len() <= usize::MAX,
        data.subrange(q as int, (q + enc_all(stop_time_update_stop_sequence_part(m)).len()) as int) == enc_all(stop_time_update_stop_sequence_part(m)),
    ensures
        fold_fields(fields_at(stop_time_update_stop_sequence_part(m), q), stop_time_update_default(), stop_time_update_step(data, c)) == Ok::<SpecStopTimeUpdate, ErrorKind>(
            SpecStopTimeUpdate { stop_sequence: m.stop_sequence, ..stop_time_update_default() },
        ),
{
    let p0 = stop_time_update_stop_sequence_part(m);
    let q0 = q;
    let step = stop_time_update_step(data, c);
    let m0 = stop_time_update_default();
    let m1 = SpecStopTimeUpdate { stop_sequence: m.stop_sequence, ..stop_time_update_default() };
    reveal(stop_time_update_stop_sequence_part);
    match m.stop_sequence {
        Some(x) => {
            lemma_enc_single(1u32, Enc::Varint(x as u64), q0);
            lemma_field_read(data, q0, q0 + enc_all(p0).len(), c, 1u32, Enc::Varint(x as u64));
            lemma_fold_single(field_at(1u32, Enc::Varint(x as u64), q0), m0, step);
            reveal(stop_time_update_applied);
            assert(stop_time_update_applied(data, field_at(1u32, Enc::Varint(x as u64), q0), m0, c) == Ok::<SpecStopTimeUpdate, ErrorKind>(m1));
        },
        None => {
                assert(p0 =~= Seq::<(u32, Enc)>::empty());
            },
    }
}

proof fn lemma_stop_time_update_arrival_read(data: Seq<u8>, q: nat, m: SpecStopTimeUpdate, c: nat)
    requires
        stop_time_update_raw_ok(m, c),
        c + 1 >= 2,
        q + enc_all(stop_time_update_arrival_part(m)).len() <= data.len() <= usize::MAX,
        data.subrange(q as int, (q + enc_all(stop_time_update_arrival_part(m)).len()) as int) == enc_all(stop_time_update_arrival_part(m)),
    ensures
        fold_fields(fields_at(stop_time_update_arrival_part(m), q), SpecStopTimeUpdate { stop_sequence: m.stop_sequence, ..stop_time_update_default() }, stop_time_update_step(data, c)) == Ok::<SpecStopTimeUpdate, ErrorKind>(
            SpecStopTimeUpdate { stop_sequence: m.stop_sequence, arrival: m.arrival, ..stop_time_update_default() },
        ),
{
    let p1 = stop_time_update_arrival_part(m);
    let q1 = q;
    let step = stop_time_update_step(data, c);
    let m1 = SpecStopTimeUpdate { stop_sequence: m.stop_sequence, ..stop_time_update_default() };
    let m2 = SpecStopTimeUpdate { stop_sequence: m.stop_sequence, arrival: m.arrival, ..stop_time_update_default() };
    reveal(stop_time_update_arrival_part);
    match m.arrival {
        Some(x) => {
            lemma_enc_single(2u32, Enc::Bytes(stop_time_event_encoded(x)), q1);
            lemma_field_read(data, q1, q1 + enc_all(p1).len(), c, 2u32, Enc::Bytes(stop_time_event_encoded(x)));
            lemma_fold_single(field_at(2u32, Enc::Bytes(stop_time_event_encoded(x)), q1), m1, step);
            reveal(stop_time_update_applied);
            let a = q1 + key_bytes(2nat, 2).len() + varint_bytes(stop_time_event_encoded(x).len()).len();
            lemma_stop_time_event_decoded(data, a, x, c);
            assert(stop_time_update_applied(data, field_at(2u32, Enc::Bytes(stop_time_event_encoded(x)), q1), m1, c) == Ok::<SpecStopTimeUpdate, ErrorKind>(m2));
        },
        None => {
                assert(p1 =~= Seq::<(u32, Enc)>::empty());
            },
    }
}

proof fn lemma_stop_time_update_departure_read(data: Seq<u8>, q: nat, m: SpecStopTimeUpdate, c: nat)
    requires
        stop_time_update_raw_ok(m, c),
        c + 1 >= 2,
        q + enc_all(stop_time_update_departure_part(m)).len() <= data.len() <= usize::MAX,
        data.subrange(q as int, (q + enc_all(stop_time_update_departure_part(m)).len()) as int) == enc_all(stop_time_update_departure_part(m)),
    ensures
        fold_fields(fields_at(stop_time_update_departure_part(m), q), SpecStopTimeUpdate { stop_sequence: m.stop_sequence, arrival: m.arrival, ..stop_time_update_default() }, stop_time_update_step(data, c)) == Ok::<SpecStopTimeUpdate, ErrorKind>(
            SpecStopTimeUpdate { stop_sequence: m.stop_sequence, arrival: m.arrival, departure: m.departure, ..stop_time_update_default() },
        ),
{
    let p2 = stop_time_update_departure_part(m);
    let q2 = q;
    let step = stop_time_update_step(data, c);
    let m2 = SpecStopTimeUpdate { stop_sequence: m.stop_sequence, arrival: m.arrival, ..stop_time_update_default() };
    let m3 = SpecStopTimeUpdate { stop_sequence: m.stop_sequence, arrival: m.arrival, departure: m.departure, ..stop_time_update_default() };
    reveal(stop_time_update_departure_part);
    match m.departure {
        Some(x) => {
            lemma_enc_single(3u32, Enc::Bytes(stop_time_event_encoded(x)), q2);
            lemma_field_read(data, q2, q2 + enc_all(p2).len(), c, 3u32, Enc::Bytes(stop_time_event_encoded(x)));
            lemma_fold_single(field_at(3u32, Enc::Bytes(stop_time_event_encoded(x)), q2), m2, step);
            reveal(stop_time_update_applied);
            let a = q2 + key_bytes(3nat, 2).len() + varint_bytes(stop_time_event_encoded(x).len()).len();
            lemma_stop_time_event_decoded(data, a, x, c);
            assert(stop_time_update_applied(data, field_at(3u32, Enc::Bytes(stop_time_event_encoded(x)), q2), m2, c) == Ok::<SpecStopTimeUpdate, ErrorKind>(m3));
        },
        None => {
                assert(p2 =~= Seq::<(u32, Enc)>::empty());
            },
    }
}

proof fn lemma_stop_time_update_stop_id_read(data: Seq<u8>, q: nat, m: SpecStopTimeUpdate, c: nat)
    requires
        stop_time_update_raw_ok(m, c),
        c + 1 >= 2,
        q + enc_all(stop_time_update_stop_id_part(m)).len() <= data.len() <= usize::MAX,
        data.subrange(q as int, (q + enc_all(stop_time_update_stop_id_part(m)).len()) as int) == enc_all(stop_time_update_stop_id_part(m)),
    ensures
        fold_fields(fields_at(stop_time_update_stop_id_part(m), q), SpecStopTimeUpdate { stop_sequence: m.stop_sequence, arrival: m.arrival, departure: m.departure, ..stop_time_update_default() }, stop_time_update_step(data, c)) == Ok::<SpecStopTimeUpdate, ErrorKind>(
            SpecStopTimeUpdate { stop_sequence: m.stop_sequence, arrival: m.arrival, departure: m.departure, stop_id: m.stop_id, ..stop_time_update_default() },
        ),
{
    let p3 = stop_time_update_stop_id_part(m);
    let q3 = q;
    let step = stop_time_update_step(data, c);
    let m3 = SpecStopTimeUpdate { stop_sequence: m.stop_sequence, arrival: m.arrival, departure: m.departure, ..stop_time_update_default() };
    let m4 = SpecStopTimeUpdate { stop_sequence: m.stop_sequence, arrival: m.arrival, departure: m.departure, stop_id: m.stop_id, ..stop_time_update_default() };
    reveal(stop_time_update_stop_id_part);
    match m.stop_id {
        Some(x) => {
            lemma_enc_single(4u32, Enc::Bytes(encode_utf8(x)), q3);
            lemma_field_read(data, q3, q3 + enc_all(p3).len(), c, 4u32, Enc::Bytes(encode_utf8(x)));
            lemma_fold_single(field_at(4u32, Enc::Bytes(encode_utf8(x)), q3), m3, step);
            reveal(stop_time_update_applied);
            encode_utf8_valid_utf8(x);
            encode_utf8_decode_utf8(x);
            assert(stop_time_update_applied(data, field_at(4u32, Enc::Bytes(encode_utf8(x)), q3), m3, c) == Ok::<SpecStopTimeUpdate, ErrorKind>(m4));
        },
        None => {
                assert(p3 =~= Seq::<(u32, Enc)>::empty());
            },
    }
}

proof fn lemma_stop_time_update_schedule_relationship_read(data: Seq<u8>, q: nat, m: SpecStopTimeUpdate, c: nat)
    requires
        stop_time_update_raw_ok(m, c),
        c + 1 >= 2,
        q + enc_all(stop_time_update_schedule_relationship_part(m)).len() <= data.len() <= usize::MAX,
        data.subrange(q as int, (q + enc_all(stop_time_update_schedule_relationship_part(m)).len()) as int) == enc_all(stop_time_update_schedule_relationship_part(m)),
    ensures
        fold_fields(fields_at(stop_time_update_schedule_relationship_part(m), q), SpecStopTimeUpdate { stop_sequence: m.stop_sequence, arrival: m.arrival, departure: m.departure, stop_id: m.stop_id, ..stop_time_update_default() }, stop_time_update_step(data, c)) == Ok::<SpecStopTimeUpdate, ErrorKind>(
            SpecStopTimeUpdate { stop_sequence: m.stop_sequence, arrival: m.arrival, departure: m.departure, stop_id: m.stop_id, schedule_relationship: m.schedule_relationship, ..stop_time_update_default() },
        ),
{
    let p4 = stop_time_update_schedule_relationship_part(m);
    let q4 = q;
    let step = stop_time_update_step(data, c);
    let m4 = SpecStopTimeUpdate { stop_sequence: m.stop_sequence, arrival: m.arrival, departure: m.departure, stop_id: m.stop_id, ..stop_time_update_default() };
    let m5 = SpecStopTimeUpdate { stop_sequence: m.stop_sequence, arrival: m.arrival, departure: m.departure, stop_id: m.stop_id, schedule_relationship: m.schedule_relationship, ..stop_time_update_default() };
    reveal(stop_time_update_schedule_relationship_part);
    match m.schedule_relationship {
        Some(x) => {
            lemma_enc_single(5u32, Enc::Varint(x as u64), q4);
            lemma_field_read(data, q4, q4 + enc_all(p4).len(), c, 5u32, Enc::Varint(x as u64));
            lemma_fold_single(field_at(5u32, Enc::Varint(x as u64), q4), m4, step);
            reveal(stop_time_update_applied);
            lemma_i32_wire(x);
            assert(stop_time_update_applied(data, field_at(5u32, Enc::Varint(x as u64), q4), m4, c) == Ok::<SpecStopTimeUpdate, ErrorKind>(m5));
        },
        None => {
                assert(p4 =~= Seq::<(u32, Enc)>::empty());
            },
    }
}

proof fn lemma_stop_time_update_stop_time_properties_read(data: Seq<u8>, q: nat, m: SpecStopTimeUpdate, c: nat)
    requires
        stop_time_update_raw_ok(m, c),
        c + 1 >= 2,
        q + enc_all(stop_time_update_stop_time_properties_part(m)).len() <= data.len() <= usize::MAX,
        data.subrange(q as int, (q + enc_all(stop_time_update_stop_time_properties_part(m)).len()) as int) == enc_all(stop_time_update_stop_time_properties_part(m)),
    ensures
        fold_fields(fields_at(stop_time_update_stop_time_properties_part(m), q), SpecStopTimeUpdate { stop_sequence: m.stop_sequence, arrival: m.arrival, departure: m.departure, stop_id: m.stop_id, schedule_relationship: m.schedule_relationship, ..stop_time_update_default() }, stop_time_update_step(data, c)) == Ok::<SpecStopTimeUpdate, ErrorKind>(
            SpecStopTimeUpdate { stop_sequence: m.stop_sequence, arrival: m.arrival, departure: m.departure, stop_id: m.stop_id, schedule_relationship: m.schedule_relationship, stop_time_properties: m.stop_time_properties, ..stop_time_update_default() },
        ),
{
    let p5 = stop_time_update_stop_time_properties_part(m);
    let q5 = q;
    let step = stop_time_update_step(data, c);
    let m5 = SpecStopTimeUpdate { stop_sequence: m.stop_sequence, arrival: m.arrival, departure: m.departure, stop_id: m.stop_id, schedule_relationship: m.schedule_relationship, ..stop_time_update_default() };
    let m6 = SpecStopTimeUpdate { stop_sequence: m.stop_sequence, arrival: m.arrival, departure: m.departure, stop_id: m.stop_id, schedule_relationship: m.schedule_relationship, stop_time_properties: m.stop_time_properties, ..stop_time_update_default() };
    reveal(stop_time_update_stop_time_properties_part);
    match m.stop_time_properties {
        Some(x) => {
            lemma_enc_single(6u32, Enc::Bytes(x), q5);
            lemma_field_read(data, q5, q5 + enc_all(p5).len(), c, 6u32, Enc::Bytes(x));
            lemma_fold_single(field_at(6u32, Enc::Bytes(x), q5), m5, step);
            reveal(stop_time_update_applied);
            let a = q5 + key_bytes(6nat, 2).len() + varint_bytes(x.len()).len();
            lemma_check_in_place(data, a, x, RawKind::StopTimeProperties, c);
            assert(Seq::<u8>::empty() + x =~= x);
            assert(stop_time_update_applied(data, field_at(6u32, Enc::Bytes(x), q5), m5, c) == Ok::<SpecStopTimeUpdate, ErrorKind>(m6));
        },
        None => {
                assert(p5 =~= Seq::<(u32, Enc)>::empty());
            },
    }
}

proof fn lemma_stop_time_update_departure_occupancy_status_read(data: Seq<u8>, q: nat, m: SpecStopTimeUpdate, c: nat)
    requires
        stop_time_update_raw_ok(m, c),
        c + 1 >= 2,
        q + enc_all(stop_time_update_departure_occupancy_status_part(m)).len() <= data.len() <= usize::MAX,
        data.subrange(q as int, (q + enc_all(stop_time_update_departure_occupancy_status_part(m)).len()) as int) == enc_all(stop_time_update_departure_occupancy_status_part(m)),
    ensures
        fold_fields(fields_at(stop_time_update_departure_occupancy_status_part(m), q), SpecStopTimeUpdate { stop_sequence: m.stop_sequence, arrival: m.arrival, departure: m.departure, stop_id: m.stop_id, schedule_relationship: m.schedule_relationship, stop_time_properties: m.stop_time_properties, ..stop_time_update_default() }, stop_time_update_step(data, c)) == Ok::<SpecStopTimeUpdate, ErrorKind>(
            SpecStopTimeUpdate { stop_sequence: m.stop_sequence, arrival: m.arrival, departure: m.departure, stop_id: m.stop_id, schedule_relationship: m.schedule_relationship, stop_time_properties: m.stop_time_properties, departure_occupancy_status: m.departure_occupancy_status, ..stop_time_update_default() },
        ),
{
    let p6 = stop_time_update_departure_occupancy_status_part(m);
    let q6 = q;
    let step = stop_time_update_step(data, c);
    let m6 = SpecStopTimeUpdate { stop_sequence: m.stop_sequence, arrival: m.arrival, departure: m.departure, stop_id: m.stop_id, schedule_relationship: m.schedule_relationship, stop_time_properties: m.stop_time_properties, ..stop_time_update_default() };
    let m7 = SpecStopTimeUpdate { stop_sequence: m.stop_sequence, arrival: m.arrival, departure: m.departure, stop_id: m.stop_id, schedule_relationship: m.schedule_relationship, stop_time_properties: m.stop_time_properties, departure_occupancy_status: m.departure_occupancy_status, ..stop_time_update_default() };
    reveal(stop_time_update_departure_occupancy_status_part);
    match m.departure_occupancy_status {
        Some(x) => {
            lemma_enc_single(7u32, Enc::Varint(x as u64), q6);
            lemma_field_read(data, q6, q6 + enc_all(p6).len(), c, 7u32, Enc::Varint(x as u64));
            lemma_fold_single(field_at(7u32, Enc::Varint(x as u64), q6), m6, step);
            reveal(stop_time_update_applied);
            lemma_i32_wire(x);
            assert(stop_time_update_applied(data, field_at(7u32, Enc::Varint(x as u64), q6), m6, c) == Ok::<SpecStopTimeUpdate, ErrorKind>(m7));
        },
        None => {
                assert(p6 =~= Seq::<(u32, Enc)>::empty());
            },
    }
}

proof fn lemma_stop_time_update_fold(data: Seq<u8>, s: nat, m: SpecStopTimeUpdate, c: nat)
    requires
        stop_time_update_raw_ok(m, c),
        c + 1 >= 2,
        s + enc_all(stop_time_update_encs(m)).len() <= data.len() <= usize::MAX,
        data.subrange(s as int, (s + enc_all(stop_time_update_encs(m)).len()) as int) == enc_all(stop_time_update_encs(m)),
    ensures
        fold_fields(fields_at(stop_time_update_encs(m), s), stop_time_update_default(), stop_time_update_step(data, c)) == Ok::<
            SpecStopTimeUpdate,
            ErrorKind,
        >(m),
{
    let es = stop_time_update_encs(m);
    let step = stop_time_update_step(data, c);
    let p0 = stop_time_update_stop_sequence_part(m);
    let p1 = stop_time_update_arrival_part(m);
    let p2 = stop_time_update_departure_part(m);
    let p3 = stop_time_update_stop_id_part(m);
    let p4 = stop_time_update_schedule_relationship_part(m);
    let p5 = stop_time_update_stop_time_properties_part(m);
    let p6 = stop_time_update_departure_occupancy_status_part(m);
    let r6 = p6;
    let r5 = p5 + r6;
    let r4 = p4 + r5;
    let r3 = p3 + r4;
    let r2 = p2 + r3;
    let r1 = p1 + r2;
    let r0 = p0 + r1;
    assert(es == r0);
    let m0 = stop_time_update_default();
    let q0 = s;
    let m1 = SpecStopTimeUpdate { stop_sequence: m.stop_sequence, ..stop_time_update_default() };
    let q1 = q0 + enc_all(p0).len();
    assert(fold_fields(fields_at(r0, q0), m0, step) == fold_fields(fields_at(r1, q1), m1, step)
        && q1 + enc_all(r1).len() <= data.len()
        && data.subrange(q1 as int, (q1 + enc_all(r1).len()) as int) == enc_all(r1)) by {
        lemma_enc_add(p0, r1, q0);
        lemma_subrange_split(data, q0, enc_all(p0), enc_all(r1));
        lemma_fold_add(fields_at(p0, q0), fields_at(r1, q1), m0, step);
        lemma_stop_time_update_stop_sequence_read(data, q0, m, c);
    }
    let m2 = SpecStopTimeUpdate { stop_sequence: m.stop_sequence, arrival: m.arrival, ..stop_time_update_default() };
    let q2 = q1 + enc_all(p1).len();
    assert(fold_fields(fields_at(r1, q1), m1, step) == fold_fields(fields_at(r2, q2), m2, step)
        && q2 + enc_all(r2).len() <= data.len()
        && data.subrange(q2 as int, (q2 + enc_all(r2).len()) as int) == enc_all(r2)) by {
        lemma_enc_add(p1, r2, q1);
        lemma_subrange_split(data, q1, enc_all(p1), enc_all(r2));
        lemma_fold_add(fields_at(p1, q1), fields_at(r2, q2), m1, step);
        lemma_stop_time_update_arrival_read(data, q1, m, c);
    }
    let m3 = SpecStopTimeUpdate { stop_sequence: m.stop_sequence, arrival: m.arrival, departure: m.departure, ..stop_time_update_default() };
    let q3 = q2 + enc_all(p2).len();
    assert(fold_fields(fields_at(r2, q2), m2, step) == fold_fields(fields_at(r3, q3), m3, step)
        && q3 + enc_all(r3).len() <= data.len()
        && data.subrange(q3 as int, (q3 + enc_all(r3).len()) as int) == enc_all(r3)) by {
        lemma_enc_add(p2, r3, q2);
        lemma_subrange_split(data, q2, enc_all(p2), enc_all(r3));
        lemma_fold_add(fields_at(p2, q2), fields_at(r3, q3), m2, step);
        lemma_stop_time_update_departure_read(data, q2, m, c);
    }
    let m4 = SpecStopTimeUpdate { stop_sequence: m.stop_sequence, arrival: m.arrival, departure: m.departure, stop_id: m.stop_id, ..stop_time_update_default() };
    let q4 = q3 + enc_all(p3).len();
    assert(fold_fields(fields_at(r3, q3), m3, step) == fold_fields(fields_at(r4, q4), m4, step)
        && q4 + enc_all(r4).len() <= data.len()
        && data.subrange(q4 as int, (q4 + enc_all(r4).len()) as int) == enc_all(r4)) by {
        lemma_enc_add(p3, r4, q3);
        lemma_subrange_split(data, q3, enc_all(p3), enc_all(r4));
        lemma_fold_add(fields_at(p3, q3), fields_at(r4, q4), m3, step);
        lemma_stop_time_update_stop_id_read(data, q3, m, c);
    }
    let m5 = SpecStopTimeUpdate { stop_sequence: m.stop_sequence, arrival: m.arrival, departure: m.departure, stop_id: m.stop_id, schedule_relationship: m.schedule_relationship, ..stop_time_update_default() };
    let q5 = q4 + enc_all(p4).len();
    assert(fold_fields(fields_at(r4, q4), m4, step) == fold_fields(fields_at(r5, q5), m5, step)
        && q5 + enc_all(r5).len() <= data.len()
        && data.subrange(q5 as int, (q5 + enc_all(r5).len()) as int) == enc_all(r5)) by {
        lemma_enc_add(p4, r5, q4);
        lemma_subrange_split(data, q4, enc_all(p4), enc_all(r5));
        lemma_fold_add(fields_at(p4, q4), fields_at(r5, q5), m4, step);
        lemma_stop_time_update_schedule_relationship_read(data, q4, m, c);
    }
    let m6 = SpecStopTimeUpdate { stop_sequence: m.stop_sequence, arrival: m.arrival, departure: m.departure, stop_id: m.stop_id, schedule_relationship: m.schedule_relationship, stop_time_properties: m.stop_time_properties, ..stop_time_update_default() };
    let q6 = q5 + enc_all(p5).len();
    assert(fold_fields(fields_at(r5, q5), m5, step) == fold_fields(fields_at(r6, q6), m6, step)
        && q6 + enc_all(r6).len() <= data.len()
        && data.subrange(q6 as int, (q6 + enc_all(r6).len()) as int) == enc_all(r6)) by {
        lemma_enc_add(p5, r6, q5);
        lemma_subrange_split(data, q5, enc_all(p5), enc_all(r6));
        lemma_fold_add(fields_at(p5, q5), fields_at(r6, q6), m5, step);
        lemma_stop_time_update_stop_time_properties_read(data, q5, m, c);
    }
    let m7 = SpecStopTimeUpdate { stop_sequence: m.stop_sequence, arrival: m.arrival, departure: m.departure, stop_id: m.stop_id, schedule_relationship: m.schedule_relationship, stop_time_properties: m.stop_time_properties, departure_occupancy_status: m.departure_occupancy_status, ..stop_time_update_default() };
    let q7 = q6 + enc_all(p6).len();
    lemma_stop_time_update_departure_occupancy_status_read(data, q6, m, c);
    assert(m7 == m);
}

/// Decoding the bytes of a `StopTimeUpdate` gives it back.
pub proof fn lemma_stop_time_update_decoded(data: Seq<u8>, s: nat, m: SpecStopTimeUpdate, ctx: nat)
    requires
        stop_time_update_raw_ok(m, (ctx - 1) as nat),
        ctx >= 2,
        s + stop_time_update_encoded(m).len() <= data.len() <= usize::MAX,
        data.subrange(s as int, (s + stop_time_update_encoded(m).len()) as int) == stop_time_update_encoded(m),
    ensures
        stop_time_update_merged(data, s, s + stop_time_update_encoded(m).len(), ctx, stop_time_update_default()) == Ok::<
            SpecStopTimeUpdate,
            ErrorKind,
        >(m),
{
    lemma_stop_time_update_encs(m);
    lemma_fields_read(data, s, stop_time_update_encs(m), (ctx - 1) as nat);
    lemma_stop_time_update_fold(data, s, m, (ctx - 1) as nat);
}

/// Every part of a `VehiclePosition` kept as raw bytes, at any depth, passes the
/// check that decoding gives it when the fields of the `VehiclePosition` are read
/// with budget `c`.
pub open spec fn vehicle_position_raw_ok(m: SpecVehiclePosition, c: nat) -> bool {
    (m.trip matches Some(x) ==> trip_descriptor_raw_ok(x, (c - 1) as nat))
    && (m.position matches Some(x) ==> position_raw_ok(x, (c - 1) as nat))
    && (m.vehicle matches Some(x) ==> vehicle_descriptor_raw_ok(x, (c - 1) as nat))
    && (forall|i: int| 0 <= i < m.multi_carriage_details.len() ==> raw_ok(RawKind::CarriageDetails, #[trigger] m.multi_carriage_details[i], c))
}

/// Field `trip` of a `VehiclePosition` as it is written.
#[verifier::opaque]
pub open spec fn vehicle_position_trip_part(m: SpecVehiclePosition) -> Seq<(u32, Enc)> {
    match m.trip {
        Some(x) => seq![(1u32, Enc::Bytes(trip_descriptor_encoded(x)))],
        None => Seq::empty(),
    }
}

/// Field `position` of a `VehiclePosition` as it is written.
#[verifier::opaque]
pub open spec fn vehicle_position_position_part(m: SpecVehiclePosition) -> Seq<(u32, Enc)> {
    match m.position {
        Some(x) => seq![(2u32, Enc::Bytes(position_encoded(x)))],
        None => Seq::empty(),
    }
}

/// Field `current_stop_sequence` of a `VehiclePosition` as it is written.
#[verifier::opaque]
pub open spec fn vehicle_position_current_stop_sequence_part(m: SpecVehiclePosition) -> Seq<(u32, Enc)> {
    match m.current_stop_sequence {
        Some(x) => seq![(3u32, Enc::Varint(x as u64))],
        None => Seq::empty(),
    }
}

/// Field `current_status` of a `VehiclePosition` as it is written.
#[verifier::opaque]
pub open spec fn vehicle_position_current_status_part(m: SpecVehiclePosition) -> Seq<(u32, Enc)> {
    match m.current_status {
        Some(x) => seq![(4u32, Enc::Varint(x as u64))],
        None => Seq::empty(),
    }
}

/// Field `timestamp` of a `VehiclePosition` as it is written.
#[verifier::opaque]
pub open spec fn vehicle_position_timestamp_part(m: SpecVehiclePosition) -> Seq<(u32, Enc)> {
    match m.timestamp {
        Some(x) => seq![(5u32, Enc::Varint(x))],
        None => Seq::empty(),
    }
}

/// Field `congestion_level` of a `VehiclePosition` as it is written.
#[verifier::opaque]
pub open spec fn vehicle_position_congestion_level_part(m: SpecVehiclePosition) -> Seq<(u32, Enc)> {
    match m.congestion_level {
        Some(x) => seq![(6u32, Enc::Varint(x as u64))],
        None => Seq::empty(),
    }
}

/// Field `stop_id` of a `VehiclePosition` as it is written.
#[verifier::opaque]
pub open spec fn vehicle_position_stop_id_part(m: SpecVehiclePosition) -> Seq<(u32, Enc)> {
    match m.stop_id {
        Some(x) => seq![(7u32, Enc::Bytes(encode_utf8(x)))],
        None => Seq::empty(),
    }
}

/// Field `vehicle` of a `VehiclePosition` as it is written.
#[verifier::opaque]
pub open spec fn vehicle_position_vehicle_part(m: SpecVehiclePosition) -> Seq<(u32, Enc)> {
    match m.vehicle {
        Some(x) => seq![(8u32, Enc::Bytes(vehicle_descriptor_encoded(x)))],
        None => Seq::empty(),
    }
}

/// Field `occupancy_status` of a `VehiclePosition` as it is written.
#[verifier::opaque]
pub open spec fn vehicle_position_occupancy_status_part(m: SpecVehiclePosition) -> Seq<(u32, Enc)> {
    match m.occupancy_status {
        Some(x) => seq![(9u32, Enc::Varint(x as u64))],
        None => Seq::empty(),
    }
}

/// Field `occupancy_percentage` of a `VehiclePosition` as it is written.
#[verifier::opaque]
pub open spec fn vehicle_position_occupancy_percentage_part(m: SpecVehiclePosition) -> Seq<(u32, Enc)> {
    match m.occupancy_percentage {
        Some(x) => seq![(10u32, Enc::Varint(x as u64))],
        None => Seq::empty(),
    }
}

/// Field `multi_carriage_details` of a `VehiclePosition` as it is written.
#[verifier::opaque]
pub open spec fn vehicle_position_multi_carriage_details_part(m: SpecVehiclePosition) -> Seq<(u32, Enc)> {
    bytes_items(11u32, m.multi_carriage_details)
}

/// The fields of a `VehiclePosition` as they are written.
pub open spec fn vehicle_position_encs(m: SpecVehiclePosition) -> Seq<(u32, Enc)> {
    vehicle_position_trip_part(m) + (vehicle_position_position_part(m) + (vehicle_position_current_stop_sequence_part(m) + (vehicle_position_current_status_part(m) + (vehicle_position_timestamp_part(m) + (vehicle_position_congestion_level_part(m) + (vehicle_position_stop_id_part(m) + (vehicle_position_vehicle_part(m) + (vehicle_position_occupancy_status_part(m) + (vehicle_position_occupancy_percentage_part(m) + (vehicle_position_multi_carriage_details_part(m)))))))))))
}

#[verifier::rlimit(100)]
proof fn lemma_vehicle_position_encs(m: SpecVehiclePosition)
    ensures
        vehicle_position_encoded(m) == enc_all(vehicle_position_encs(m)),
        tags_ok(vehicle_position_encs(m)),
{
    reveal(vehicle_position_encoded);
    let p0 = vehicle_position_trip_part(m);
    let b0 = opt_bytes_field(
            1,
            match m.trip {
                Some(x) => Some(trip_descriptor_encoded(x)),
                None => None,
            },
        );
    assert(enc_all(p0) == b0 && tags_ok(p0)) by {
        reveal(vehicle_position_trip_part);
        match m.trip {
            Some(x) => {
                lemma_enc_single(1u32, Enc::Bytes(trip_descriptor_encoded(x)), 0);
                assert(enc_all(p0) =~= b0);
            },
            None => {
                assert(enc_all(p0) =~= b0);
            },
        }
    }
    let p1 = vehicle_position_position_part(m);
    let b1 = opt_bytes_field(
            2,
            match m.position {
                Some(x) => Some(position_encoded(x)),
                None => None,
            },
        );
    assert(enc_all(p1) == b1 && tags_ok(p1)) by {
        reveal(vehicle_position_position_part);
        match m.position {
            Some(x) => {
                lemma_enc_single(2u32, Enc::Bytes(position_encoded(x)), 0);
                assert(enc_all(p1) =~= b1);
            },
            None => {
                assert(enc_all(p1) =~= b1);
            },
        }
    }
    let p2 = vehicle_position_current_stop_sequence_part(m);
    let b2 = opt_varint_field(
            3,
            match m.current_stop_sequence {
                Some(v) => Some(v as u64),
                None => None,
            },
        );
    assert(enc_all(p2) == b2 && tags_ok(p2)) by {
        reveal(vehicle_position_current_stop_sequence_part);
        match m.current_stop_sequence {
            Some(x) => {
                lemma_enc_single(3u32, Enc::Varint(x as u64), 0);
                assert(enc_all(p2) =~= b2);
            },
            None => {
                assert(enc_all(p2) =~= b2);
            },
        }
    }
    let p3 = vehicle_position_current_status_part(m);
    let b3 = opt_varint_field(
            4,
            match m.current_status {
                Some(v) => Some(v as u64),
                None => None,
            },
        );
    assert(enc_all(p3) == b3 && tags_ok(p3)) by {
        reveal(vehicle_position_current_status_part);
        match m.current_status {
            Some(x) => {
                lemma_enc_single(4u32, Enc::Varint(x as u64), 0);
                assert(enc_all(p3) =~= b3);
            },
            None => {
                assert(enc_all(p3) =~= b3);
            },
        }
    }
    let p4 = vehicle_position_timestamp_part(m);
    let b4 = opt_varint_field(
            5,
            match m.timestamp {
                Some(v) => Some(v),
                None => None,
            },
        );
    assert(enc_all(p4) == b4 && tags_ok(p4)) by {
        reveal(vehicle_position_timestamp_part);
        match m.timestamp {
            Some(x) => {
                lemma_enc_single(5u32, Enc::Varint(x), 0);
                assert(enc_all(p4) =~= b4);
            },
            None => {
                assert(enc_all(p4) =~= b4);
            },
        }
    }
    let p5 = vehicle_position_congestion_level_part(m);
    let b5 = opt_varint_field(
            6,
            match m.congestion_level {
                Some(v) => Some(v as u64),
                None => None,
            },
        );
    assert(enc_all(p5) == b5 && tags_ok(p5)) by {
        reveal(vehicle_position_congestion_level_part);
        match m.congestion_level {
            Some(x) => {
                lemma_enc_single(6u32, Enc::Varint(x as u64), 0);
                assert(enc_all(p5) =~= b5);
            },
            None => {
                assert(enc_all(p5) =~= b5);
            },
        }
    }
    let p6 = vehicle_position_stop_id_part(m);
    let b6 = match m.stop_id {
            Some(x) => string_field(7, x),
            None => Seq::empty(),
        };
    assert(enc_all(p6) == b6 && tags_ok(p6)) by {
        reveal(vehicle_position_stop_id_part);
        match m.stop_id {
            Some(x) => {
                lemma_enc_single(7u32, Enc::Bytes(encode_utf8(x)), 0);
                assert(enc_all(p6) =~= b6);
            },
            None => {
                assert(enc_all(p6) =~= b6);
            },
        }
    }
    let p7 = vehicle_position_vehicle_part(m);
    let b7 = opt_bytes_field(
            8,
            match m.vehicle {
                Some(x) => Some(vehicle_descriptor_encoded(x)),
                None => None,
            },
        );
    assert(enc_all(p7) == b7 && tags_ok(p7)) by {
        reveal(vehicle_position_vehicle_part);
        match m.vehicle {
            Some(x) => {
                lemma_enc_single(8u32, Enc::Bytes(vehicle_descriptor_encoded(x)), 0);
                assert(enc_all(p7) =~= b7);
            },
            None => {
                assert(enc_all(p7) =~= b7);
            },
        }
    }
    let p8 = vehicle_position_occupancy_status_part(m);
    let b8 = opt_varint_field(
            9,
            match m.occupancy_status {
                Some(v) => Some(v as u64),
                None => None,
            },
        );
    assert(enc_all(p8) == b8 && tags_ok(p8)) by {
        reveal(vehicle_position_occupancy_status_part);
        match m.occupancy_status {
            Some(x) => {
                lemma_enc_single(9u32, Enc::Varint(x as u64), 0);
                assert(enc_all(p8) =~= b8);
            },
            None => {
                assert(enc_all(p8) =~= b8);
            },
        }
    }
    let p9 = vehicle_position_occupancy_percentage_part(m);
    let b9 = opt_varint_field(
            10,
            match m.occupancy_percentage {
                Some(v) => Some(v as u64),
                None => None,
            },
        );
    assert(enc_all(p9) == b9 && tags_ok(p9)) by {
        reveal(vehicle_position_occupancy_percentage_part);
        match m.occupancy_percentage {
            Some(x) => {
                lemma_enc_single(10u32, Enc::Varint(x as u64), 0);
                assert(enc_all(p9) =~= b9);
            },
            None => {
                assert(enc_all(p9) =~= b9);
            },
        }
    }
    let p10 = vehicle_position_multi_carriage_details_part(m);
    let b10 = repeated_bytes_field(11, m.multi_carriage_details);
    assert(enc_all(p10) == b10 && tags_ok(p10)) by {
        reveal(vehicle_position_multi_carriage_details_part);
        lemma_bytes_items(11u32, m.multi_carriage_details);
    }
    let r10 = p10;
    let s10 = b10;
    let r9 = p9 + r10;
    let s9 = b9 + s10;
    lemma_enc_add(p9, r10, 0);
    let r8 = p8 + r9;
    let s8 = b8 + s9;
    lemma_enc_add(p8, r9, 0);
    let r7 = p7 + r8;
    let s7 = b7 + s8;
    lemma_enc_add(p7, r8, 0);
    let r6 = p6 + r7;
    let s6 = b6 + s7;
    lemma_enc_add(p6, r7, 0);
    let r5 = p5 + r6;
    let s5 = b5 + s6;
    lemma_enc_add(p5, r6, 0);
    let r4 = p4 + r5;
    let s4 = b4 + s5;
    lemma_enc_add(p4, r5, 0);
    let r3 = p3 + r4;
    let s3 = b3 + s4;
    lemma_enc_add(p3, r4, 0);
    let r2 = p2 + r3;
    let s2 = b2 + s3;
    lemma_enc_add(p2, r3, 0);
    let r1 = p1 + r2;
    let s1 = b1 + s2;
    lemma_enc_add(p1, r2, 0);
    let r0 = p0 + r1;
    let s0 = b0 + s1;
    lemma_enc_add(p0, r1, 0);
    let l0 = b0;
    let l1 = l0 + b1;
    let l2 = l1 + b2;
    let l3 = l2 + b3;
    let l4 = l3 + b4;
    let l5 = l4 + b5;
    let l6 = l5 + b6;
    let l7 = l6 + b7;
    let l8 = l7 + b8;
    let l9 = l8 + b9;
    let l10 = l9 + b10;
    assert(l0 + s1 == s0);
    lemma_add_assoc(l0, b1, s2);
    assert(l1 + s2 == s0);
    lemma_add_assoc(l1, b2, s3);
    assert(l2 + s3 == s0);
    lemma_add_assoc(l2, b3, s4);
    assert(l3 + s4 == s0);
    lemma_add_assoc(l3, b4, s5);
    assert(l4 + s5 == s0);
    lemma_add_assoc(l4, b5, s6);
    assert(l5 + s6 == s0);
    lemma_add_assoc(l5, b6, s7);
    assert(l6 + s7 == s0);
    lemma_add_assoc(l6, b7, s8);
    assert(l7 + s8 == s0);
    lemma_add_assoc(l7, b8, s9);
    assert(l8 + s9 == s0);
    lemma_add_assoc(l8, b9, s10);
    assert(l9 + s10 == s0);
    assert(vehicle_position_encoded(m) == l10);
    assert(vehicle_position_encs(m) == r0);
}

proof fn lemma_vehicle_position_multi_carriage_details_items(data: Seq<u8>, q: nat, items: Seq<Seq<u8>>, mp: SpecVehiclePosition, c: nat)
    requires
        forall|i: int| 0 <= i < items.len() ==> raw_ok(RawKind::CarriageDetails, #[trigger] items[i], c),
        q + enc_all(bytes_items(11u32, items)).len() <= data.len() <= usize::MAX,
        data.subrange(q as int, (q + enc_all(bytes_items(11u32, items)).len()) as int) == enc_all(bytes_items(11u32, items)),
    ensures
        fold_fields(fields_at(bytes_items(11u32, items), q), mp, vehicle_position_step(data, c)) == Ok::<SpecVehiclePosition, ErrorKind>(
            SpecVehiclePosition { multi_carriage_details: mp.multi_carriage_details + items, ..mp },
        ),
    decreases items.len(),
{
    let bs = items;
    let es = bytes_items(11u32, bs);
    if items.len() == 0 {
        assert(es =~= Seq::<(u32, Enc)>::empty());
        assert(mp.multi_carriage_details + items =~= mp.multi_carriage_details);
    } else {
        lemma_bytes_items(11u32, bs);
        let head = seq![(11u32, Enc::Bytes(bs[0]))];
        let rest_items = items.drop_first();
        assert(bs.drop_first() =~= rest_items);
        let rest = bytes_items(11u32, rest_items);
        lemma_enc_add(head, rest, q);
        lemma_enc_single(11u32, Enc::Bytes(bs[0]), q);
        lemma_subrange_split(data, q, enc_all(head), enc_all(rest));
        lemma_field_read(data, q, q + enc_all(head).len(), c, 11u32, Enc::Bytes(bs[0]));
        let fd = field_at(11u32, Enc::Bytes(bs[0]), q);
        lemma_fold_add(seq![fd], fields_at(rest, q + enc_all(head).len()), mp, vehicle_position_step(data, c));
        lemma_fold_single(fd, mp, vehicle_position_step(data, c));
        reveal(vehicle_position_applied);
        let a = q + key_bytes(11nat, 2).len() + varint_bytes(bs[0].len()).len();
        lemma_check_in_place(data, a, items[0], RawKind::CarriageDetails, c);
        assert(Seq::<u8>::empty() + items[0] =~= items[0]);
        let m1 = SpecVehiclePosition { multi_carriage_details: mp.multi_carriage_details.push(items[0]), ..mp };
        assert(vehicle_position_applied(data, fd, mp, c) == Ok::<SpecVehiclePosition, ErrorKind>(m1));
        lemma_vehicle_position_multi_carriage_details_items(data, q + enc_all(head).len(), rest_items, m1, c);
        assert(m1.multi_carriage_details + rest_items =~= mp.multi_carriage_details + items);
    }
}

proof fn lemma_vehicle_position_trip_read(data: Seq<u8>, q: nat, m: SpecVehiclePosition, c: nat)
    requires
        vehicle_position_raw_ok(m, c),
        c + 1 >= 3,
        q + enc_all(vehicle_position_trip_part(m)).len() <= data.len() <= usize::MAX,
        data.subrange(q as int, (q + enc_all(vehicle_position_trip_part(m)).len()) as int) == enc_all(vehicle_position_trip_part(m)),
    ensures
        fold_fields(fields_at(vehicle_position_trip_part(m), q), vehicle_position_default(), vehicle_position_step(data, c)) == Ok::<SpecVehiclePosition, ErrorKind>(
            SpecVehiclePosition { trip: m.trip, ..vehicle_position_default() },
        ),
{
    let p0 = vehicle_position_trip_part(m);
    let q0 = q;
    let step = vehicle_position_step(data, c);
    let m0 = vehicle_position_default();
    let m1 = SpecVehiclePosition { trip: m.trip, ..vehicle_position_default() };
    reveal(vehicle_position_trip_part);
    match m.trip {
        Some(x) => {
            lemma_enc_single(1u32, Enc::Bytes(trip_descriptor_encoded(x)), q0);
            lemma_field_read(data, q0, q0 + enc_all(p0).len(), c, 1u32, Enc::Bytes(trip_descriptor_encoded(x)));
            lemma_fold_single(field_at(1u32, Enc::Bytes(trip_descriptor_encoded(x)), q0), m0, step);
            reveal(vehicle_position_applied);
            let a = q0 + key_bytes(1nat, 2).len() + varint_bytes(trip_descriptor_encoded(x).len()).len();
            lemma_trip_descriptor_decoded(data, a, x, c);
            assert(vehicle_position_applied(data, field_at(1u32, Enc::Bytes(trip_descriptor_encoded(x)), q0), m0, c) == Ok::<SpecVehiclePosition, ErrorKind>(m1));
        },
        None => {
                assert(p0 =~= Seq::<(u32, Enc)>::empty());
            },
    }
}

proof fn lemma_vehicle_position_position_read(data: Seq<u8>, q: nat, m: SpecVehiclePosition, c: nat)
    requires
        vehicle_position_raw_ok(m, c),
        c + 1 >= 3,
        q + enc_all(vehicle_position_position_part(m)).len() <= data.len() <= usize::MAX,
        data.subrange(q as int, (q + enc_all(vehicle_position_position_part(m)).len()) as int) == enc_all(vehicle_position_position_part(m)),
    ensures
        fold_fields(fields_at(vehicle_position_position_part(m), q), SpecVehiclePosition { trip: m.trip, ..vehicle_position_default() }, vehicle_position_step(data, c)) == Ok::<SpecVehiclePosition, ErrorKind>(
            SpecVehiclePosition { trip: m.trip, position: m.position, ..vehicle_position_default() },
        ),
{
    let p1 = vehicle_position_position_part(m);
    let q1 = q;
    let step = vehicle_position_step(data, c);
    let m1 = SpecVehiclePosition { trip: m.trip, ..vehicle_position_default() };
    let m2 = SpecVehiclePosition { trip: m.trip, position: m.position, ..vehicle_position_default() };
    reveal(vehicle_position_position_part);
    match m.position {
        Some(x) => {
            lemma_enc_single(2u32, Enc::Bytes(position_encoded(x)), q1);
            lemma_field_read(data, q1, q1 + enc_all(p1).len(), c, 2u32, Enc::Bytes(position_encoded(x)));
            lemma_fold_single(field_at(2u32, Enc::Bytes(position_encoded(x)), q1), m1, step);
            reveal(vehicle_position_applied);
            let a = q1 + key_bytes(2nat, 2).len() + varint_bytes(position_encoded(x).len()).len();
            lemma_position_decoded(data, a, x, c);
            assert(vehicle_position_applied(data, field_at(2u32, Enc::Bytes(position_encoded(x)), q1), m1, c) == Ok::<SpecVehiclePosition, ErrorKind>(m2));
        },
        None => {
                assert(p1 =~= Seq::<(u32, Enc)>::empty());
            },
    }
}

proof fn lemma_vehicle_position_current_stop_sequence_read(data: Seq<u8>, q: nat, m: SpecVehiclePosition, c: nat)
    requires
        vehicle_position_raw_ok(m, c),
        c + 1 >= 3,
        q + enc_all(vehicle_position_current_stop_sequence_part(m)).len() <= data.len() <= usize::MAX,
        data.subrange(q as int, (q + enc_all(vehicle_position_current_stop_sequence_part(m)).len()) as int) == enc_all(vehicle_position_current_stop_sequence_part(m)),
    ensures
        fold_fields(fields_at(vehicle_position_current_stop_sequence_part(m), q), SpecVehiclePosition { trip: m.trip, position: m.position, ..vehicle_position_default() }, vehicle_position_step(data, c)) == Ok::<SpecVehiclePosition, ErrorKind>(
            SpecVehiclePosition { trip: m.trip, position: m.position, current_stop_sequence: m.current_stop_sequence, ..vehicle_position_default() },
        ),
{
    let p2 = vehicle_position_current_stop_sequence_part(m);
    let q2 = q;
    let step = vehicle_position_step(data, c);
    let m2 = SpecVehiclePosition { trip: m.trip, position: m.position, ..vehicle_position_default() };
    let m3 = SpecVehiclePosition { trip: m.trip, position: m.position, current_stop_sequence: m.current_stop_sequence, ..vehicle_position_default() };
    reveal(vehicle_position_current_stop_sequence_part);
    match m.current_stop_sequence {
        Some(x) => {
            lemma_enc_single(3u32, Enc::Varint(x as u64), q2);
            lemma_field_read(data, q2, q2 + enc_all(p2).len(), c, 3u32, Enc::Varint(x as u64));
            lemma_fold_single(field_at(3u32, Enc::Varint(x as u64), q2), m2, step);
            reveal(vehicle_position_applied);
            assert(vehicle_position_applied(data, field_at(3u32, Enc::Varint(x as u64), q2), m2, c) == Ok::<SpecVehiclePosition, ErrorKind>(m3));
        },
        None => {
                assert(p2 =~= Seq::<(u32, Enc)>::empty());
            },
    }
}

proof fn lemma_vehicle_position_current_status_read(data: Seq<u8>, q: nat, m: SpecVehiclePosition, c: nat)
    requires
        vehicle_position_raw_ok(m, c),
        c + 1 >= 3,
        q + enc_all(vehicle_position_current_status_part(m)).len() <= data.len() <= usize::MAX,
        data.subrange(q as int, (q + enc_all(vehicle_position_current_status_part(m)).len()) as int) == enc_all(vehicle_position_current_status_part(m)),
    ensures
        fold_fields(fields_at(vehicle_position_current_status_part(m), q), SpecVehiclePosition { trip: m.trip, position: m.position, current_stop_sequence: m.current_stop_sequence, ..vehicle_position_default() }, vehicle_position_step(data, c)) == Ok::<SpecVehiclePosition, ErrorKind>(
            SpecVehiclePosition { trip: m.trip, position: m.position, current_stop_sequence: m.current_stop_sequence, current_status: m.current_status, ..vehicle_position_default() },
        ),
{
    let p3 = vehicle_position_current_status_part(m);
    let q3 = q;
    let step = vehicle_position_step(data, c);
    let m3 = SpecVehiclePosition { trip: m.trip, position: m.position, current_stop_sequence: m.current_stop_sequence, ..vehicle_position_default() };
    let m4 = SpecVehiclePosition { trip: m.trip, position: m.position, current_stop_sequence: m.current_stop_sequence, current_status: m.current_status, ..vehicle_position_default() };
    reveal(vehicle_position_current_status_part);
    match m.current_status {
        Some(x) => {
            lemma_enc_single(4u32, Enc::Varint(x as u64), q3);
            lemma_field_read(data, q3, q3 + enc_all(p3).len(), c, 4u32, Enc::Varint(x as u64));
            lemma_fold_single(field_at(4u32, Enc::Varint(x as u64), q3), m3, step);
            reveal(vehicle_position_applied);
            lemma_i32_wire(x);
            assert(vehicle_position_applied(data, field_at(4u32, Enc::Varint(x as u64), q3), m3, c) == Ok::<SpecVehiclePosition, ErrorKind>(m4));
        },
        None => {
                assert(p3 =~= Seq::<(u32, Enc)>::empty());
            },
    }
}

proof fn lemma_vehicle_position_timestamp_read(data: Seq<u8>, q: nat, m: SpecVehiclePosition, c: nat)
    requires
        vehicle_position_raw_ok(m, c),
        c + 1 >= 3,
        q + enc_all(vehicle_position_timestamp_part(m)).len() <= data.len() <= usize::MAX,
        data.subrange(q as int, (q + enc_all(vehicle_position_timestamp_part(m)).len()) as int) == enc_all(vehicle_position_timestamp_part(m)),
    ensures
        fold_fields(fields_at(vehicle_position_timestamp_part(m), q), SpecVehiclePosition { trip: m.trip, position: m.position, current_stop_sequence: m.current_stop_sequence, current_status: m.current_status, ..vehicle_position_default() }, vehicle_position_step(data, c)) == Ok::<SpecVehiclePosition, ErrorKind>(
            SpecVehiclePosition { trip: m.trip, position: m.position, current_stop_sequence: m.current_stop_sequence, current_status: m.current_status, timestamp: m.timestamp, ..vehicle_position_default() },
        ),
{
    let p4 = vehicle_position_timestamp_part(m);
    let q4 = q;
    let step = vehicle_position_step(data, c);
    let m4 = SpecVehiclePosition { trip: m.trip, position: m.position, current_stop_sequence: m.current_stop_sequence, current_status: m.current_status, ..vehicle_position_default() };
    let m5 = SpecVehiclePosition { trip: m.trip, position: m.position, current_stop_sequence: m.current_stop_sequence, current_status: m.current_status, timestamp: m.timestamp, ..vehicle_position_default() };
    reveal(vehicle_position_timestamp_part);
    match m.timestamp {
        Some(x) => {
            lemma_enc_single(5u32, Enc::Varint(x), q4);
            lemma_field_read(data, q4, q4 + enc_all(p4).len(), c, 5u32, Enc::Varint(x));
            lemma_fold_single(field_at(5u32, Enc::Varint(x), q4), m4, step);
            reveal(vehicle_position_applied);
            assert(vehicle_position_applied(data, field_at(5u32, Enc::Varint(x), q4), m4, c) == Ok::<SpecVehiclePosition, ErrorKind>(m5));
        },
        None => {
                assert(p4 =~= Seq::<(u32, Enc)>::empty());
            },
    }
}

proof fn lemma_vehicle_position_congestion_level_read(data: Seq<u8>, q: nat, m: SpecVehiclePosition, c: nat)
    requires
        vehicle_position_raw_ok(m, c),
        c + 1 >= 3,
        q + enc_all(vehicle_position_congestion_level_part(m)).len() <= data.len() <= usize::MAX,
        data.subrange(q as int, (q + enc_all(vehicle_position_congestion_level_part(m)).len()) as int) == enc_all(vehicle_position_congestion_level_part(m)),
    ensures
        fold_fields(fields_at(vehicle_position_congestion_level_part(m), q), SpecVehiclePosition { trip: m.trip, position: m.position, current_stop_sequence: m.current_stop_sequence, current_status: m.current_status, timestamp: m.timestamp, ..vehicle_position_default() }, vehicle_position_step(data, c)) == Ok::<SpecVehiclePosition, ErrorKind>(
            SpecVehiclePosition { trip: m.trip, position: m.position, current_stop_sequence: m.current_stop_sequence, current_status: m.current_status, timestamp: m.timestamp, congestion_level: m.congestion_level, ..vehicle_position_default() },
        ),
{
    let p5 = vehicle_position_congestion_level_part(m);
    let q5 = q;
    let step = vehicle_position_step(data, c);
    let m5 = SpecVehiclePosition { trip: m.trip, position: m.position, current_stop_sequence: m.current_stop_sequence, current_status: m.current_status, timestamp: m.timestamp, ..vehicle_position_default() };
    let m6 = SpecVehiclePosition { trip: m.trip, position: m.position, current_stop_sequence: m.current_stop_sequence, current_status: m.current_status, timestamp: m.timestamp, congestion_level: m.congestion_level, ..vehicle_position_default() };
    reveal(vehicle_position_congestion_level_part);
    match m.congestion_level {
        Some(x) => {
            lemma_enc_single(6u32, Enc::Varint(x as u64), q5);
            lemma_field_read(data, q5, q5 + enc_all(p5).len(), c, 6u32, Enc::Varint(x as u64));
            lemma_fold_single(field_at(6u32, Enc::Varint(x as u64), q5), m5, step);
            reveal(vehicle_position_applied);
            lemma_i32_wire(x);
            assert(vehicle_position_applied(data, field_at(6u32, Enc::Varint(x as u64), q5), m5, c) == Ok::<SpecVehiclePosition, ErrorKind>(m6));
        },
        None => {
                assert(p5 =~= Seq::<(u32, Enc)>::empty());
            },
    }
}

proof fn lemma_vehicle_position_stop_id_read(data: Seq<u8>, q: nat, m: SpecVehiclePosition, c: nat)
    requires
        vehicle_position_raw_ok(m, c),
        c + 1 >= 3,
        q + enc_all(vehicle_position_stop_id_part(m)).len() <= data.len() <= usize::MAX,
        data.subrange(q as int, (q + enc_all(vehicle_position_stop_id_part(m)).len()) as int) == enc_all(vehicle_position_stop_id_part(m)),
    ensures
        fold_fields(fields_at(vehicle_position_stop_id_part(m), q), SpecVehiclePosition { trip: m.trip, position: m.position, current_stop_sequence: m.current_stop_sequence, current_status: m.current_status, timestamp: m.timestamp, congestion_level: m.congestion_level, ..vehicle_position_default() }, vehicle_position_step(data, c)) == Ok::<SpecVehiclePosition, ErrorKind>(
            SpecVehiclePosition { trip: m.trip, position: m.position, current_stop_sequence: m.current_stop_sequence, current_status: m.current_status, timestamp: m.timestamp, congestion_level: m.congestion_level, stop_id: m.stop_id, ..vehicle_position_default() },
        ),
{
    let p6 = vehicle_position_stop_id_part(m);
    let q6 = q;
    let step = vehicle_position_step(data, c);
    let m6 = SpecVehiclePosition { trip: m.trip, position: m.position, current_stop_sequence: m.current_stop_sequence, current_status: m.current_status, timestamp: m.timestamp, congestion_level: m.congestion_level, ..vehicle_position_default() };
    let m7 = SpecVehiclePosition { trip: m.trip, position: m.position, current_stop_sequence: m.current_stop_sequence, current_status: m.current_status, timestamp: m.timestamp, congestion_level: m.congestion_level, stop_id: m.stop_id, ..vehicle_position_default() };
    reveal(vehicle_position_stop_id_part);
    match m.stop_id {
        Some(x) => {
            lemma_enc_single(7u32, Enc::Bytes(encode_utf8(x)), q6);
            lemma_field_read(data, q6, q6 + enc_all(p6).len(), c, 7u32, Enc::Bytes(encode_utf8(x)));
            lemma_fold_single(field_at(7u32, Enc::Bytes(encode_utf8(x)), q6), m6, step);
            reveal(vehicle_position_applied);
            encode_utf8_valid_utf8(x);
            encode_utf8_decode_utf8(x);
            assert(vehicle_position_applied(data, field_at(7u32, Enc::Bytes(encode_utf8(x)), q6), m6, c) == Ok::<SpecVehiclePosition, ErrorKind>(m7));
        },
        None => {
                assert(p6 =~= Seq::<(u32, Enc)>::empty());
            },
    }
}

proof fn lemma_vehicle_position_vehicle_read(data: Seq<u8>, q: nat, m: SpecVehiclePosition, c: nat)
    requires
        vehicle_position_raw_ok(m, c),
        c + 1 >= 3,
        q + enc_all(vehicle_position_vehicle_part(m)).len() <= data.len() <= usize::MAX,
        data.subrange(q as int, (q + enc_all(vehicle_position_vehicle_part(m)).len()) as int) == enc_all(vehicle_position_vehicle_part(m)),
    ensures
        fold_fields(fields_at(vehicle_position_vehicle_part(m), q), SpecVehiclePosition { trip: m.trip, position: m.position, current_stop_sequence: m.current_stop_sequence, current_status: m.current_status, timestamp: m.timestamp, congestion_level: m.congestion_level, stop_id: m.stop_id, ..vehicle_position_default() }, vehicle_position_step(data, c)) == Ok::<SpecVehiclePosition, ErrorKind>(
            SpecVehiclePosition { trip: m.trip, position: m.position, current_stop_sequence: m.current_stop_sequence, current_status: m.current_status, timestamp: m.timestamp, congestion_level: m.congestion_level, stop_id: m.stop_id, vehicle: m.vehicle, ..vehicle_position_default() },
        ),
{
    let p7 = vehicle_position_vehicle_part(m);
    let q7 = q;
    let step = vehicle_position_step(data, c);
    let m7 = SpecVehiclePosition { trip: m.trip, position: m.position, current_stop_sequence: m.current_stop_sequence, current_status: m.current_status, timestamp: m.timestamp, congestion_level: m.congestion_level, stop_id: m.stop_id, ..vehicle_position_default() };
    let m8 = SpecVehiclePosition { trip: m.trip, position: m.position, current_stop_sequence: m.current_stop_sequence, current_status: m.current_status, timestamp: m.timestamp, congestion_level: m.congestion_level, stop_id: m.stop_id, vehicle: m.vehicle, ..vehicle_position_default() };
    reveal(vehicle_position_vehicle_part);
    match m.vehicle {
        Some(x) => {
            lemma_enc_single(8u32, Enc::Bytes(vehicle_descriptor_encoded(x)), q7);
            lemma_field_read(data, q7, q7 + enc_all(p7).len(), c, 8u32, Enc::Bytes(vehicle_descriptor_encoded(x)));
            lemma_fold_single(field_at(8u32, Enc::Bytes(vehicle_descriptor_encoded(x)), q7), m7, step);
            reveal(vehicle_position_applied);
            let a = q7 + key_bytes(8nat, 2).len() + varint_bytes(vehicle_descriptor_encoded(x).len()).len();
            lemma_vehicle_descriptor_decoded(data, a, x, c);
            assert(vehicle_position_applied(data, field_at(8u32, Enc::Bytes(vehicle_descriptor_encoded(x)), q7), m7, c) == Ok::<SpecVehiclePosition, ErrorKind>(m8));
        },
        None => {
                assert(p7 =~= Seq::<(u32, Enc)>::empty());
            },
    }
}

proof fn lemma_vehicle_position_occupancy_status_read(data: Seq<u8>, q: nat, m: SpecVehiclePosition, c: nat)
    requires
        vehicle_position_raw_ok(m, c),
        c + 1 >= 3,
        q + enc_all(vehicle_position_occupancy_status_part(m)).len() <= data.len() <= usize::MAX,
        data.subrange(q as int, (q + enc_all(vehicle_position_occupancy_status_part(m)).len()) as int) == enc_all(vehicle_position_occupancy_status_part(m)),
    ensures
        fold_fields(fields_at(vehicle_position_occupancy_status_part(m), q), SpecVehiclePosition { trip: m.trip, position: m.position, current_stop_sequence: m.current_stop_sequence, current_status: m.current_status, timestamp: m.timestamp, congestion_level: m.congestion_level, stop_id: m.stop_id, vehicle: m.vehicle, ..vehicle_position_default() }, vehicle_position_step(data, c)) == Ok::<SpecVehiclePosition, ErrorKind>(
            SpecVehiclePosition { trip: m.trip, position: m.position, current_stop_sequence: m.current_stop_sequence, current_status: m.current_status, timestamp: m.timestamp, congestion_level: m.congestion_level, stop_id: m.stop_id, vehicle: m.vehicle, occupancy_status: m.occupancy_status, ..vehicle_position_default() },
        ),
{
    let p8 = vehicle_position_occupancy_status_part(m);
    let q8 = q;
    let step = vehicle_position_step(data, c);
    let m8 = SpecVehiclePosition { trip: m.trip, position: m.position, current_stop_sequence: m.current_stop_sequence, current_status: m.current_status, timestamp: m.timestamp, congestion_level: m.congestion_level, stop_id: m.stop_id, vehicle: m.vehicle, ..vehicle_position_default() };
    let m9 = SpecVehiclePosition { trip: m.trip, position: m.position, current_stop_sequence: m.current_stop_sequence, current_status: m.current_status, timestamp: m.timestamp, congestion_level: m.congestion_level, stop_id: m.stop_id, vehicle: m.vehicle, occupancy_status: m.occupancy_status, ..vehicle_position_default() };
    reveal(vehicle_position_occupancy_status_part);
    match m.occupancy_status {
        Some(x) => {
            lemma_enc_single(9u32, Enc::Varint(x as u64), q8);
            lemma_field_read(data, q8, q8 + enc_all(p8).len(), c, 9u32, Enc::Varint(x as u64));
            lemma_fold_single(field_at(9u32, Enc::Varint(x as u64), q8), m8, step);
            reveal(vehicle_position_applied);
            lemma_i32_wire(x);
            assert(vehicle_position_applied(data, field_at(9u32, Enc::Varint(x as u64), q8), m8, c) == Ok::<SpecVehiclePosition, ErrorKind>(m9));
        },
        None => {
                assert(p8 =~= Seq::<(u32, Enc)>::empty());
            },
    }
}

proof fn lemma_vehicle_position_occupancy_percentage_read(data: Seq<u8>, q: nat, m: SpecVehiclePosition, c: nat)
    requires
        vehicle_position_raw_ok(m, c),
        c + 1 >= 3,
        q + enc_all(vehicle_position_occupancy_percentage_part(m)).len() <= data.len() <= usize::MAX,
        data.subrange(q as int, (q + enc_all(vehicle_position_occupancy_percentage_part(m)).len()) as int) == enc_all(vehicle_position_occupancy_percentage_part(m)),
    ensures
        fold_fields(fields_at(vehicle_position_occupancy_percentage_part(m), q), SpecVehiclePosition { trip: m.trip, position: m.position, current_stop_sequence: m.current_stop_sequence, current_status: m.current_status, timestamp: m.timestamp, congestion_level: m.congestion_level, stop_id: m.stop_id, vehicle: m.vehicle, occupancy_status: m.occupancy_status, ..vehicle_position_default() }, vehicle_position_step(data, c)) == Ok::<SpecVehiclePosition, ErrorKind>(
            SpecVehiclePosition { trip: m.trip, position: m.position, current_stop_sequence: m.current_stop_sequence, current_status: m.current_status, timestamp: m.timestamp, congestion_level: m.congestion_level, stop_id: m.stop_id, vehicle: m.vehicle, occupancy_status: m.occupancy_status, occupancy_percentage: m.occupancy_percentage, ..vehicle_position_default() },
        ),
{
    let p9 = vehicle_position_occupancy_percentage_part(m);
    let q9 = q;
    let step = vehicle_position_step(data, c);
    let m9 = SpecVehiclePosition { trip: m.trip, position: m.position, current_stop_sequence: m.current_stop_sequence, current_status: m.current_status, timestamp: m.timestamp, congestion_level: m.congestion_level, stop_id: m.stop_id, vehicle: m.vehicle, occupancy_status: m.occupancy_status, ..vehicle_position_default() };
    let m10 = SpecVehiclePosition { trip: m.trip, position: m.position, current_stop_sequence: m.current_stop_sequence, current_status: m.current_status, timestamp: m.timestamp, congestion_level: m.congestion_level, stop_id: m.stop_id, vehicle: m.vehicle, occupancy_status: m.occupancy_status, occupancy_percentage: m.occupancy_percentage, ..vehicle_position_default() };
    reveal(vehicle_position_occupancy_percentage_part);
    match m.occupancy_percentage {
        Some(x) => {
            lemma_enc_single(10u32, Enc::Varint(x as u64), q9);
            lemma_field_read(data, q9, q9 + enc_all(p9).len(), c, 10u32, Enc::Varint(x as u64));
            lemma_fold_single(field_at(10u32, Enc::Varint(x as u64), q9), m9, step);
            reveal(vehicle_position_applied);
            assert(vehicle_position_applied(data, field_at(10u32, Enc::Varint(x as u64), q9), m9, c) == Ok::<SpecVehiclePosition, ErrorKind>(m10));
        },
        None => {
                assert(p9 =~= Seq::<(u32, Enc)>::empty());
            },
    }
}

proof fn lemma_vehicle_position_multi_carriage_details_read(data: Seq<u8>, q: nat, m: SpecVehiclePosition, c: nat)
    requires
        vehicle_position_raw_ok(m, c),
        c + 1 >= 3,
        q + enc_all(vehicle_position_multi_carriage_details_part(m)).len() <= data.len() <= usize::MAX,
        data.subrange(q as int, (q + enc_all(vehicle_position_multi_carriage_details_part(m)).len()) as int) == enc_all(vehicle_position_multi_carriage_details_part(m)),
    ensures
        fold_fields(fields_at(vehicle_position_multi_carriage_details_part(m), q), SpecVehiclePosition { trip: m.trip, position: m.position, current_stop_sequence: m.current_stop_sequence, current_status: m.current_status, timestamp: m.timestamp, congestion_level: m.congestion_level, stop_id: m.stop_id, vehicle: m.vehicle, occupancy_status: m.occupancy_status, occupancy_percentage: m.occupancy_percentage, ..vehicle_position_default() }, vehicle_position_step(data, c)) == Ok::<SpecVehiclePosition, ErrorKind>(
            SpecVehiclePosition { trip: m.trip, position: m.position, current_stop_sequence: m.current_stop_sequence, current_status: m.current_status, timestamp: m.timestamp, congestion_level: m.congestion_level, stop_id: m.stop_id, vehicle: m.vehicle, occupancy_status: m.occupancy_status, occupancy_percentage: m.occupancy_percentage, multi_carriage_details: m.multi_carriage_details, ..vehicle_position_default() },
        ),
{
    let p10 = vehicle_position_multi_carriage_details_part(m);
    let q10 = q;
    let step = vehicle_position_step(data, c);
    let m10 = SpecVehiclePosition { trip: m.trip, position: m.position, current_stop_sequence: m.current_stop_sequence, current_status: m.current_status, timestamp: m.timestamp, congestion_level: m.congestion_level, stop_id: m.stop_id, vehicle: m.vehicle, occupancy_status: m.occupancy_status, occupancy_percentage: m.occupancy_percentage, ..vehicle_position_default() };
    let m11 = SpecVehiclePosition { trip: m.trip, position: m.position, current_stop_sequence: m.current_stop_sequence, current_status: m.current_status, timestamp: m.timestamp, congestion_level: m.congestion_level, stop_id: m.stop_id, vehicle: m.vehicle, occupancy_status: m.occupancy_status, occupancy_percentage: m.occupancy_percentage, multi_carriage_details: m.multi_carriage_details, ..vehicle_position_default() };
    reveal(vehicle_position_multi_carriage_details_part);
    lemma_vehicle_position_multi_carriage_details_items(data, q10, m.multi_carriage_details, m10, c);
    assert(m10.multi_carriage_details + m.multi_carriage_details =~= m.multi_carriage_details);
}

proof fn lemma_vehicle_position_fold(data: Seq<u8>, s: nat, m: SpecVehiclePosition, c: nat)
    requires
        vehicle_position_raw_ok(m, c),
        c + 1 >= 3,
        s + enc_all(vehicle_position_encs(m)).len() <= data.len() <= usize::MAX,
        data.subrange(s as int, (s + enc_all(vehicle_position_encs(m)).len()) as int) == enc_all(vehicle_position_encs(m)),
    ensures
        fold_fields(fields_at(vehicle_position_encs(m), s), vehicle_position_default(), vehicle_position_step(data, c)) == Ok::<
            SpecVehiclePosition,
            ErrorKind,
        >(m),
{
    let es = vehicle_position_encs(m);
    let step = vehicle_position_step(data, c);
    let p0 = vehicle_position_trip_part(m);
    let p1 = vehicle_position_position_part(m);
    let p2 = vehicle_position_current_stop_sequence_part(m);
    let p3 = vehicle_position_current_status_part(m);
    let p4 = vehicle_position_timestamp_part(m);
    let p5 = vehicle_position_congestion_level_part(m);
    let p6 = vehicle_position_stop_id_part(m);
    let p7 = vehicle_position_vehicle_part(m);
    let p8 = vehicle_position_occupancy_status_part(m);
    let p9 = vehicle_position_occupancy_percentage_part(m);
    let p10 = vehicle_position_multi_carriage_details_part(m);
    let r10 = p10;
    let r9 = p9 + r10;
    let r8 = p8 + r9;
    let r7 = p7 + r8;
    let r6 = p6 + r7;
    let r5 = p5 + r6;
    let r4 = p4 + r5;
    let r3 = p3 + r4;
    let r2 = p2 + r3;
    let r1 = p1 + r2;
    let r0 = p0 + r1;
    assert(es == r0);
    let m0 = vehicle_position_default();
    let q0 = s;
    let m1 = SpecVehiclePosition { trip: m.trip, ..vehicle_position_default() };
    let q1 = q0 + enc_all(p0).len();
    assert(fold_fields(fields_at(r0, q0), m0, step) == fold_fields(fields_at(r1, q1), m1, step)
        && q1 + enc_all(r1).len() <= data.len()
        && data.subrange(q1 as int, (q1 + enc_all(r1).len()) as int) == enc_all(r1)) by {
        lemma_enc_add(p0, r1, q0);
        lemma_subrange_split(data, q0, enc_all(p0), enc_all(r1));
        lemma_fold_add(fields_at(p0, q0), fields_at(r1, q1), m0, step);
        lemma_vehicle_position_trip_read(data, q0, m, c);
    }
    let m2 = SpecVehiclePosition { trip: m.trip, position: m.position, ..vehicle_position_default() };
    let q2 = q1 + enc_all(p1).len();
    assert(fold_fields(fields_at(r1, q1), m1, step) == fold_fields(fields_at(r2, q2), m2, step)
        && q2 + enc_all(r2).len() <= data.len()
        && data.subrange(q2 as int, (q2 + enc_all(r2).len()) as int) == enc_all(r2)) by {
        lemma_enc_add(p1, r2, q1);
        lemma_subrange_split(data, q1, enc_all(p1), enc_all(r2));
        lemma_fold_add(fields_at(p1, q1), fields_at(r2, q2), m1, step);
        lemma_vehicle_position_position_read(data, q1, m, c);
    }
    let m3 = SpecVehiclePosition { trip: m.trip, position: m.position, current_stop_sequence: m.current_stop_sequence, ..vehicle_position_default() };
    let q3 = q2 + enc_all(p2).len();
    assert(fold_fields(fields_at(r2, q2), m2, step) == fold_fields(fields_at(r3, q3), m3, step)
        && q3 + enc_all(r3).len() <= data.len()
        && data.subrange(q3 as int, (q3 + enc_all(r3).len()) as int) == enc_all(r3)) by {
        lemma_enc_add(p2, r3, q2);
        lemma_subrange_split(data, q2, enc_all(p2), enc_all(r3));
        lemma_fold_add(fields_at(p2, q2), fields_at(r3, q3), m2, step);
        lemma_vehicle_position_current_stop_sequence_read(data, q2, m, c);
    }
    let m4 = SpecVehiclePosition { trip: m.trip, position: m.position, current_stop_sequence: m.current_stop_sequence, current_status: m.current_status, ..vehicle_position_default() };
    let q4 = q3 + enc_all(p3).len();
    assert(fold_fields(fields_at(r3, q3), m3, step) == fold_fields(fields_at(r4, q4), m4, step)
        && q4 + enc_all(r4).len() <= data.len()
        && data.subrange(q4 as int, (q4 + enc_all(r4).len()) as int) == enc_all(r4)) by {
        lemma_enc_add(p3, r4, q3);
        lemma_subrange_split(data, q3, enc_all(p3), enc_all(r4));
        lemma_fold_add(fields_at(p3, q3), fields_at(r4, q4), m3, step);
        lemma_vehicle_position_current_status_read(data, q3, m, c);
    }
    let m5 = SpecVehiclePosition { trip: m.trip, position: m.position, current_stop_sequence: m.current_stop_sequence, current_status: m.current_status, timestamp: m.timestamp, ..vehicle_position_default() };
    let q5 = q4 + enc_all(p4).len();
    assert(fold_fields(fields_at(r4, q4), m4, step) == fold_fields(fields_at(r5, q5), m5, step)
        && q5 + enc_all(r5).len() <= data.len()
        && data.subrange(q5 as int, (q5 + enc_all(r5).len()) as int) == enc_all(r5)) by {
        lemma_enc_add(p4, r5, q4);
        lemma_subrange_split(data, q4, enc_all(p4), enc_all(r5));
        lemma_fold_add(fields_at(p4, q4), fields_at(r5, q5), m4, step);
        lemma_vehicle_position_timestamp_read(data, q4, m, c);
    }
    let m6 = SpecVehiclePosition { trip: m.trip, position: m.position, current_stop_sequence: m.current_stop_sequence, current_status: m.current_status, timestamp: m.timestamp, congestion_level: m.congestion_level, ..vehicle_position_default() };
    let q6 = q5 + enc_all(p5).len();
    assert(fold_fields(fields_at(r5, q5), m5, step) == fold_fields(fields_at(r6, q6), m6, step)
        && q6 + enc_all(r6).len() <= data.len()
        && data.subrange(q6 as int, (q6 + enc_all(r6).len()) as int) == enc_all(r6)) by {
        lemma_enc_add(p5, r6, q5);
        lemma_subrange_split(data, q5, enc_all(p5), enc_all(r6));
        lemma_fold_add(fields_at(p5, q5), fields_at(r6, q6), m5, step);
        lemma_vehicle_position_congestion_level_read(data, q5, m, c);
    }
    let m7 = SpecVehiclePosition { trip: m.trip, position: m.position, current_stop_sequence: m.current_stop_sequence, current_status: m.current_status, timestamp: m.timestamp, congestion_level: m.congestion_level, stop_id: m.stop_id, ..vehicle_position_default() };
    let q7 = q6 + enc_all(p6).len();
    assert(fold_fields(fields_at(r6, q6), m6, step) == fold_fields(fields_at(r7, q7), m7, step)
        && q7 + enc_all(r7).len() <= data.len()
        && data.subrange(q7 as int, (q7 + enc_all(r7).len()) as int) == enc_all(r7)) by {
        lemma_enc_add(p6, r7, q6);
        lemma_subrange_split(data, q6, enc_all(p6), enc_all(r7));
        lemma_fold_add(fields_at(p6, q6), fields_at(r7, q7), m6, step);
        lemma_vehicle_position_stop_id_read(data, q6, m, c);
    }
    let m8 = SpecVehiclePosition { trip: m.trip, position: m.position, current_stop_sequence: m.current_stop_sequence, current_status: m.current_status, timestamp: m.timestamp, congestion_level: m.congestion_level, stop_id: m.stop_id, vehicle: m.vehicle, ..vehicle_position_default() };
    let q8 = q7 + enc_all(p7).len();
    assert(fold_fields(fields_at(r7, q7), m7, step) == fold_fields(fields_at(r8, q8), m8, step)
        && q8 + enc_all(r8).len() <= data.len()
        && data.subrange(q8 as int, (q8 + enc_all(r8).len()) as int) == enc_all(r8)) by {
        lemma_enc_add(p7, r8, q7);
        lemma_subrange_split(data, q7, enc_all(p7), enc_all(r8));
        lemma_fold_add(fields_at(p7, q7), fields_at(r8, q8), m7, step);
        lemma_vehicle_position_vehicle_read(data, q7, m, c);
    }
    let m9 = SpecVehiclePosition { trip: m.trip, position: m.position, current_stop_sequence: m.current_stop_sequence, current_status: m.current_status, timestamp: m.timestamp, congestion_level: m.congestion_level, stop_id: m.stop_id, vehicle: m.vehicle, occupancy_status: m.occupancy_status, ..vehicle_position_default() };
    let q9 = q8 + enc_all(p8).len();
    assert(fold_fields(fields_at(r8, q8), m8, step) == fold_fields(fields_at(r9, q9), m9, step)
        && q9 + enc_all(r9).len() <= data.len()
        && data.subrange(q9 as int, (q9 + enc_all(r9).len()) as int) == enc_all(r9)) by {
        lemma_enc_add(p8, r9, q8);
        lemma_subrange_split(data, q8, enc_all(p8), enc_all(r9));
        lemma_fold_add(fields_at(p8, q8), fields_at(r9, q9), m8, step);
        lemma_vehicle_position_occupancy_status_read(data, q8, m, c);
    }
    let m10 = SpecVehiclePosition { trip: m.trip, position: m.position, current_stop_sequence: m.current_stop_sequence, current_status: m.current_status, timestamp: m.timestamp, congestion_level: m.congestion_level, stop_id: m.stop_id, vehicle: m.vehicle, occupancy_status: m.occupancy_status, occupancy_percentage: m.occupancy_percentage, ..vehicle_position_default() };
    let q10 = q9 + enc_all(p9).len();
    assert(fold_fields(fields_at(r9, q9), m9, step) == fold_fields(fields_at(r10, q10), m10, step)
        && q10 + enc_all(r10).len() <= data.len()
        && data.subrange(q10 as int, (q10 + enc_all(r10).len()) as int) == enc_all(r10)) by {
        lemma_enc_add(p9, r10, q9);
        lemma_subrange_split(data, q9, enc_all(p9), enc_all(r10));
        lemma_fold_add(fields_at(p9, q9), fields_at(r10, q10), m9, step);
        lemma_vehicle_position_occupancy_percentage_read(data, q9, m, c);
    }
    let m11 = SpecVehiclePosition { trip: m.trip, position: m.position, current_stop_sequence: m.current_stop_sequence, current_status: m.current_status, timestamp: m.timestamp, congestion_level: m.congestion_level, stop_id: m.stop_id, vehicle: m.vehicle, occupancy_status: m.occupancy_status, occupancy_percentage: m.occupancy_percentage, multi_carriage_details: m.multi_carriage_details, ..vehicle_position_default() };
    let q11 = q10 + enc_all(p10).len();
    lemma_vehicle_position_multi_carriage_details_read(data, q10, m, c);
    assert(m11 == m);
}

/// Decoding the bytes of a `VehiclePosition` gives it back.
pub proof fn lemma_vehicle_position_decoded(data: Seq<u8>, s: nat, m: SpecVehiclePosition, ctx: nat)
    requires
        vehicle_position_raw_ok(m, (ctx - 1) as nat),
        ctx >= 3,
        s + vehicle_position_encoded(m).len() <= data.len() <= usize::MAX,
        data.subrange(s as int, (s + vehicle_position_encoded(m).len()) as int) == vehicle_position_encoded(m),
    ensures
        vehicle_position_merged(data, s, s + vehicle_position_encoded(m).len(), ctx, vehicle_position_default()) == Ok::<
            SpecVehiclePosition,
            ErrorKind,
        >(m),
{
    lemma_vehicle_position_encs(m);
    lemma_fields_read(data, s, vehicle_position_encs(m), (ctx - 1) as nat);
    lemma_vehicle_position_fold(data, s, m, (ctx - 1) as nat);
}

/// Every part of a `Position` kept as raw bytes, at any depth, passes the
/// check that decoding gives it when the fields of the `Position` are read
/// with budget `c`.
pub open spec fn position_raw_ok(m: SpecPosition, c: nat) -> bool {
    true
}

/// Field `latitude` of a `Position` as it is written.
#[verifier::opaque]
pub open spec fn position_latitude_part(m: SpecPosition) -> Seq<(u32, Enc)> {
    seq![(1u32, Enc::Fixed32(m.latitude))]
}

/// Field `longitude` of a `Position` as it is written.
#[verifier::opaque]
pub open spec fn position_longitude_part(m: SpecPosition) -> Seq<(u32, Enc)> {
    seq![(2u32, Enc::Fixed32(m.longitude))]
}

/// Field `bearing` of a `Position` as it is written.
#[verifier::opaque]
pub open spec fn position_bearing_part(m: SpecPosition) -> Seq<(u32, Enc)> {
    match m.bearing {
        Some(x) => seq![(3u32, Enc::Fixed32(x))],
        None => Seq::empty(),
    }
}

/// Field `odometer` of a `Position` as it is written.
#[verifier::opaque]
pub open spec fn position_odometer_part(m: SpecPosition) -> Seq<(u32, Enc)> {
    match m.odometer {
        Some(x) => seq![(4u32, Enc::Fixed64(x))],
        None => Seq::empty(),
    }
}

/// Field `speed` of a `Position` as it is written.
#[verifier::opaque]
pub open spec fn position_speed_part(m: SpecPosition) -> Seq<(u32, Enc)> {
    match m.speed {
        Some(x) => seq![(5u32, Enc::Fixed32(x))],
        None => Seq::empty(),
    }
}

/// The fields of a `Position` as they are written.
pub open spec fn position_encs(m: SpecPosition) -> Seq<(u32, Enc)> {
    position_latitude_part(m) + (position_longitude_part(m) + (position_bearing_part(m) + (position_odometer_part(m) + (position_speed_part(m)))))
}

proof fn lemma_position_encs(m: SpecPosition)
    ensures
        position_encoded(m) == enc_all(position_encs(m)),
        tags_ok(position_encs(m)),
{
    reveal(position_encoded);
    let p0 = position_latitude_part(m);
    let b0 = fixed32_field(1, m.latitude);
    assert(enc_all(p0) == b0 && tags_ok(p0)) by {
        reveal(position_latitude_part);
        lemma_enc_single(1u32, Enc::Fixed32(m.latitude), 0);
        assert(enc_all(p0) =~= b0);
    }
    let p1 = position_longitude_part(m);
    let b1 = fixed32_field(2, m.longitude);
    assert(enc_all(p1) == b1 && tags_ok(p1)) by {
        reveal(position_longitude_part);
        lemma_enc_single(2u32, Enc::Fixed32(m.longitude), 0);
        assert(enc_all(p1) =~= b1);
    }
    let p2 = position_bearing_part(m);
    let b2 = opt_fixed32_field(3, m.bearing);
    assert(enc_all(p2) == b2 && tags_ok(p2)) by {
        reveal(position_bearing_part);
        match m.bearing {
            Some(x) => {
                lemma_enc_single(3u32, Enc::Fixed32(x), 0);
                assert(enc_all(p2) =~= b2);
            },
            None => {
                assert(enc_all(p2) =~= b2);
            },
        }
    }
    let p3 = position_odometer_part(m);
    let b3 = opt_fixed64_field(4, m.odometer);
    assert(enc_all(p3) == b3 && tags_ok(p3)) by {
        reveal(position_odometer_part);
        match m.odometer {
            Some(x) => {
                lemma_enc_single(4u32, Enc::Fixed64(x), 0);
                assert(enc_all(p3) =~= b3);
            },
            None => {
                assert(enc_all(p3) =~= b3);
            },
        }
    }
    let p4 = position_speed_part(m);
    let b4 = opt_fixed32_field(5, m.speed);
    assert(enc_all(p4) == b4 && tags_ok(p4)) by {
        reveal(position_speed_part);
        match m.speed {
            Some(x) => {
                lemma_enc_single(5u32, Enc::Fixed32(x), 0);
                assert(enc_all(p4) =~= b4);
            },
            None => {
                assert(enc_all(p4) =~= b4);
            },
        }
    }
    let r4 = p4;
    let s4 = b4;
    let r3 = p3 + r4;
    let s3 = b3 + s4;
    lemma_enc_add(p3, r4, 0);
    let r2 = p2 + r3;
    let s2 = b2 + s3;
    lemma_enc_add(p2, r3, 0);
    let r1 = p1 + r2;
    let s1 = b1 + s2;
    lemma_enc_add(p1, r2, 0);
    let r0 = p0 + r1;
    let s0 = b0 + s1;
    lemma_enc_add(p0, r1, 0);
    let l0 = b0;
    let l1 = l0 + b1;
    let l2 = l1 + b2;
    let l3 = l2 + b3;
    let l4 = l3 + b4;
    assert(l0 + s1 == s0);
    lemma_add_assoc(l0, b1, s2);
    assert(l1 + s2 == s0);
    lemma_add_assoc(l1, b2, s3);
    assert(l2 + s3 == s0);
    lemma_add_assoc(l2, b3, s4);
    assert(l3 + s4 == s0);
    assert(position_encoded(m) == l4);
    assert(position_encs(m) == r0);
}

proof fn lemma_position_latitude_read(data: Seq<u8>, q: nat, m: SpecPosition, c: nat)
    requires
        position_raw_ok(m, c),
        c + 1 >= 1,
        q + enc_all(position_latitude_part(m)).len() <= data.len() <= usize::MAX,
        data.subrange(q as int, (q + enc_all(position_latitude_part(m)).len()) as int) == enc_all(position_latitude_part(m)),
    ensures
        fold_fields(fields_at(position_latitude_part(m), q), position_default(), position_step(data, c)) == Ok::<SpecPosition, ErrorKind>(
            SpecPosition { latitude: m.latitude, ..position_default() },
        ),
{
    let p0 = position_latitude_part(m);
    let q0 = q;
    let step = position_step(data, c);
    let m0 = position_default();
    let m1 = SpecPosition { latitude: m.latitude, ..position_default() };
    reveal(position_latitude_part);
    lemma_enc_single(1u32, Enc::Fixed32(m.latitude), q0);
    lemma_field_read(data, q0, q0 + enc_all(p0).len(), c, 1u32, Enc::Fixed32(m.latitude));
    lemma_fold_single(field_at(1u32, Enc::Fixed32(m.latitude), q0), m0, step);
    reveal(position_applied);
    assert(position_applied(data, field_at(1u32, Enc::Fixed32(m.latitude), q0), m0, c) == Ok::<SpecPosition, ErrorKind>(m1));
}

proof fn lemma_position_longitude_read(data: Seq<u8>, q: nat, m: SpecPosition, c: nat)
    requires
        position_raw_ok(m, c),
        c + 1 >= 1,
        q + enc_all(position_longitude_part(m)).len() <= data.len() <= usize::MAX,
        data.subrange(q as int, (q + enc_all(position_longitude_part(m)).len()) as int) == enc_all(position_longitude_part(m)),
    ensures
        fold_fields(fields_at(position_longitude_part(m), q), SpecPosition { latitude: m.latitude, ..position_default() }, position_step(data, c)) == Ok::<SpecPosition, ErrorKind>(
            SpecPosition { latitude: m.latitude, longitude: m.longitude, ..position_default() },
        ),
{
    let p1 = position_longitude_part(m);
    let q1 = q;
    let step = position_step(data, c);
    let m1 = SpecPosition { latitude: m.latitude, ..position_default() };
    let m2 = SpecPosition { latitude: m.latitude, longitude: m.longitude, ..position_default() };
    reveal(position_longitude_part);
    lemma_enc_single(2u32, Enc::Fixed32(m.longitude), q1);
    lemma_field_read(data, q1, q1 + enc_all(p1).len(), c, 2u32, Enc::Fixed32(m.longitude));
    lemma_fold_single(field_at(2u32, Enc::Fixed32(m.longitude), q1), m1, step);
    reveal(position_applied);
    assert(position_applied(data, field_at(2u32, Enc::Fixed32(m.longitude), q1), m1, c) == Ok::<SpecPosition, ErrorKind>(m2));
}

proof fn lemma_position_bearing_read(data: Seq<u8>, q: nat, m: SpecPosition, c: nat)
    requires
        position_raw_ok(m, c),
        c + 1 >= 1,
        q + enc_all(position_bearing_part(m)).len() <= data.len() <= usize::MAX,
        data.subrange(q as int, (q + enc_all(position_bearing_part(m)).len()) as int) == enc_all(position_bearing_part(m)),
    ensures
        fold_fields(fields_at(position_bearing_part(m), q), SpecPosition { latitude: m.latitude, longitude: m.longitude, ..position_default() }, position_step(data, c)) == Ok::<SpecPosition, ErrorKind>(
            SpecPosition { latitude: m.latitude, longitude: m.longitude, bearing: m.bearing, ..position_default() },
        ),
{
    let p2 = position_bearing_part(m);
    let q2 = q;
    let step = position_step(data, c);
    let m2 = SpecPosition { latitude: m.latitude, longitude: m.longitude, ..position_default() };
    let m3 = SpecPosition { latitude: m.latitude, longitude: m.longitude, bearing: m.bearing, ..position_default() };
    reveal(position_bearing_part);
    match m.bearing {
        Some(x) => {
            lemma_enc_single(3u32, Enc::Fixed32(x), q2);
            lemma_field_read(data, q2, q2 + enc_all(p2).len(), c, 3u32, Enc::Fixed32(x));
            lemma_fold_single(field_at(3u32, Enc::Fixed32(x), q2), m2, step);
            reveal(position_applied);
            assert(position_applied(data, field_at(3u32, Enc::Fixed32(x), q2), m2, c) == Ok::<SpecPosition, ErrorKind>(m3));
        },
        None => {
                assert(p2 =~= Seq::<(u32, Enc)>::empty());
            },
    }
}

proof fn lemma_position_odometer_read(data: Seq<u8>, q: nat, m: SpecPosition, c: nat)
    requires
        position_raw_ok(m, c),
        c + 1 >= 1,
        q + enc_all(position_odometer_part(m)).len() <= data.len() <= usize::MAX,
        data.subrange(q as int, (q + enc_all(position_odometer_part(m)).len()) as int) == enc_all(position_odometer_part(m)),
    ensures
        fold_fields(fields_at(position_odometer_part(m), q), SpecPosition { latitude: m.latitude, longitude: m.longitude, bearing: m.bearing, ..position_default() }, position_step(data, c)) == Ok::<SpecPosition, ErrorKind>(
            SpecPosition { latitude: m.latitude, longitude: m.longitude, bearing: m.bearing, odometer: m.odometer, ..position_default() },
        ),
{
    let p3 = position_odometer_part(m);
    let q3 = q;
    let step = position_step(data, c);
    let m3 = SpecPosition { latitude: m.latitude, longitude: m.longitude, bearing: m.bearing, ..position_default() };
    let m4 = SpecPosition { latitude: m.latitude, longitude: m.longitude, bearing: m.bearing, odometer: m.odometer, ..position_default() };
    reveal(position_odometer_part);
    match m.odometer {
        Some(x) => {
            lemma_enc_single(4u32, Enc::Fixed64(x), q3);
            lemma_field_read(data, q3, q3 + enc_all(p3).len(), c, 4u32, Enc::Fixed64(x));
            lemma_fold_single(field_at(4u32, Enc::Fixed64(x), q3), m3, step);
            reveal(position_applied);
            assert(position_applied(data, field_at(4u32, Enc::Fixed64(x), q3), m3, c) == Ok::<SpecPosition, ErrorKind>(m4));
        },
        None => {
                assert(p3 =~= Seq::<(u32, Enc)>::empty());
            },
    }
}

proof fn lemma_position_speed_read(data: Seq<u8>, q: nat, m: SpecPosition, c: nat)
    requires
        position_raw_ok(m, c),
        c + 1 >= 1,
        q + enc_all(position_speed_part(m)).len() <= data.len() <= usize::MAX,
        data.subrange(q as int, (q + enc_all(position_speed_part(m)).len()) as int) == enc_all(position_speed_part(m)),
    ensures
        fold_fields(fields_at(position_speed_part(m), q), SpecPosition { latitude: m.latitude, longitude: m.longitude, bearing: m.bearing, odometer: m.odometer, ..position_default() }, position_step(data, c)) == Ok::<SpecPosition, ErrorKind>(
            SpecPosition { latitude: m.latitude, longitude: m.longitude, bearing: m.bearing, odometer: m.odometer, speed: m.speed, ..position_default() },
        ),
{
    let p4 = position_speed_part(m);
    let q4 = q;
    let step = position_step(data, c);
    let m4 = SpecPosition { latitude: m.latitude, longitude: m.longitude, bearing: m.bearing, odometer: m.odometer, ..position_default() };
    let m5 = SpecPosition { latitude: m.latitude, longitude: m.longitude, bearing: m.bearing, odometer: m.odometer, speed: m.speed, ..position_default() };
    reveal(position_speed_part);
    match m.speed {
        Some(x) => {
            lemma_enc_single(5u32, Enc::Fixed32(x), q4);
            lemma_field_read(data, q4, q4 + enc_all(p4).len(), c, 5u32, Enc::Fixed32(x));
            lemma_fold_single(field_at(5u32, Enc::Fixed32(x), q4), m4, step);
            reveal(position_applied);
            assert(position_applied(data, field_at(5u32, Enc::Fixed32(x), q4), m4, c) == Ok::<SpecPosition, ErrorKind>(m5));
        },
        None => {
                assert(p4 =~= Seq::<(u32, Enc)>::empty());
            },
    }
}

proof fn lemma_position_fold(data: Seq<u8>, s: nat, m: SpecPosition, c: nat)
    requires
        position_raw_ok(m, c),
        c + 1 >= 1,
        s + enc_all(position_encs(m)).len() <= data.len() <= usize::MAX,
        data.subrange(s as int, (s + enc_all(position_encs(m)).len()) as int) == enc_all(position_encs(m)),
    ensures
        fold_fields(fields_at(position_encs(m), s), position_default(), position_step(data, c)) == Ok::<
            SpecPosition,
            ErrorKind,
        >(m),
{
    let es = position_encs(m);
    let step = position_step(data, c);
    let p0 = position_latitude_part(m);
    let p1 = position_longitude_part(m);
    let p2 = position_bearing_part(m);
    let p3 = position_odometer_part(m);
    let p4 = position_speed_part(m);
    let r4 = p4;
    let r3 = p3 + r4;
    let r2 = p2 + r3;
    let r1 = p1 + r2;
    let r0 = p0 + r1;
    assert(es == r0);
    let m0 = position_default();
    let q0 = s;
    let m1 = SpecPosition { latitude: m.latitude, ..position_default() };
    let q1 = q0 + enc_all(p0).len();
    assert(fold_fields(fields_at(r0, q0), m0, step) == fold_fields(fields_at(r1, q1), m1, step)
        && q1 + enc_all(r1).len() <= data.len()
        && data.subrange(q1 as int, (q1 + enc_all(r1).len()) as int) == enc_all(r1)) by {
        lemma_enc_add(p0, r1, q0);
        lemma_subrange_split(data, q0, enc_all(p0), enc_all(r1));
        lemma_fold_add(fields_at(p0, q0), fields_at(r1, q1), m0, step);
        lemma_position_latitude_read(data, q0, m, c);
    }
    let m2 = SpecPosition { latitude: m.latitude, longitude: m.longitude, ..position_default() };
    let q2 = q1 + enc_all(p1).len();
    assert(fold_fields(fields_at(r1, q1), m1, step) == fold_fields(fields_at(r2, q2), m2, step)
        && q2 + enc_all(r2).len() <= data.len()
        && data.subrange(q2 as int, (q2 + enc_all(r2).len()) as int) == enc_all(r2)) by {
        lemma_enc_add(p1, r2, q1);
        lemma_subrange_split(data, q1, enc_all(p1), enc_all(r2));
        lemma_fold_add(fields_at(p1, q1), fields_at(r2, q2), m1, step);
        lemma_position_longitude_read(data, q1, m, c);
    }
    let m3 = SpecPosition { latitude: m.latitude, longitude: m.longitude, bearing: m.bearing, ..position_default() };
    let q3 = q2 + enc_all(p2).len();
    assert(fold_fields(fields_at(r2, q2), m2, step) == fold_fields(fields_at(r3, q3), m3, step)
        && q3 + enc_all(r3).len() <= data.len()
        && data.subrange(q3 as int, (q3 + enc_all(r3).len()) as int) == enc_all(r3)) by {
        lemma_enc_add(p2, r3, q2);
        lemma_subrange_split(data, q2, enc_all(p2), enc_all(r3));
        lemma_fold_add(fields_at(p2, q2), fields_at(r3, q3), m2, step);
        lemma_position_bearing_read(data, q2, m, c);
    }
    let m4 = SpecPosition { latitude: m.latitude, longitude: m.longitude, bearing: m.bearing, odometer: m.odometer, ..position_default() };
    let q4 = q3 + enc_all(p3).len();
    assert(fold_fields(fields_at(r3, q3), m3, step) == fold_fields(fields_at(r4, q4), m4, step)
        && q4 + enc_all(r4).len() <= data.len()
        && data.subrange(q4 as int, (q4 + enc_all(r4).len()) as int) == enc_all(r4)) by {
        lemma_enc_add(p3, r4, q3);
        lemma_subrange_split(data, q3, enc_all(p3), enc_all(r4));
        lemma_fold_add(fields_at(p3, q3), fields_at(r4, q4), m3, step);
        lemma_position_odometer_read(data, q3, m, c);
    }
    let m5 = SpecPosition { latitude: m.latitude, longitude: m.longitude, bearing: m.bearing, odometer: m.odometer, speed: m.speed, ..position_default() };
    let q5 = q4 + enc_all(p4).len();
    lemma_position_speed_read(data, q4, m, c);
    assert(m5 == m);
}

/// Decoding the bytes of a `Position` gives it back.
pub proof fn lemma_position_decoded(data: Seq<u8>, s: nat, m: SpecPosition, ctx: nat)
    requires
        position_raw_ok(m, (ctx - 1) as nat),
        ctx >= 1,
        s + position_encoded(m).len() <= data.len() <= usize::MAX,
        data.subrange(s as int, (s + position_encoded(m).len()) as int) == position_encoded(m),
    ensures
        position_merged(data, s, s + position_encoded(m).len(), ctx, position_default()) == Ok::<
            SpecPosition,
            ErrorKind,
        >(m),
{
    lemma_position_encs(m);
    lemma_fields_read(data, s, position_encs(m), (ctx - 1) as nat);
    lemma_position_fold(data, s, m, (ctx - 1) as nat);
}

/// Every part of a `TripDescriptor` kept as raw bytes, at any depth, passes the
/// check that decoding gives it when the fields of the `TripDescriptor` are read
/// with budget `c`.
pub open spec fn trip_descriptor_raw_ok(m: SpecTripDescriptor, c: nat) -> bool {
    (m.modified_trip matches Some(x) ==> modified_trip_selector_raw_ok(x, (c - 1) as nat))
}

/// Field `trip_id` of a `TripDescriptor` as it is written.
#[verifier::opaque]
pub open spec fn trip_descriptor_trip_id_part(m: SpecTripDescriptor) -> Seq<(u32, Enc)> {
    match m.trip_id {
        Some(x) => seq![(1u32, Enc::Bytes(encode_utf8(x)))],
        None => Seq::empty(),
    }
}

/// Field `start_time` of a `TripDescriptor` as it is written.
#[verifier::opaque]
pub open spec fn trip_descriptor_start_time_part(m: SpecTripDescriptor) -> Seq<(u32, Enc)> {
    match m.start_time {
        Some(x) => seq![(2u32, Enc::Bytes(encode_utf8(x)))],
        None => Seq::empty(),
    }
}

/// Field `start_date` of a `TripDescriptor` as it is written.
#[verifier::opaque]
pub open spec fn trip_descriptor_start_date_part(m: SpecTripDescriptor) -> Seq<(u32, Enc)> {
    match m.start_date {
        Some(x) => seq![(3u32, Enc::Bytes(encode_utf8(x)))],
        None => Seq::empty(),
    }
}

/// Field `schedule_relationship` of a `TripDescriptor` as it is written.
#[verifier::opaque]
pub open spec fn trip_descriptor_schedule_relationship_part(m: SpecTripDescriptor) -> Seq<(u32, Enc)> {
    match m.schedule_relationship {
        Some(x) => seq![(4u32, Enc::Varint(x as u64))],
        None => Seq::empty(),
    }
}

/// Field `route_id` of a `TripDescriptor` as it is written.
#[verifier::opaque]
pub open spec fn trip_descriptor_route_id_part(m: SpecTripDescriptor) -> Seq<(u32, Enc)> {
    match m.route_id {
        Some(x) => seq![(5u32, Enc::Bytes(encode_utf8(x)))],
        None => Seq::empty(),
    }
}

/// Field `direction_id` of a `TripDescriptor` as it is written.
#[verifier::opaque]
pub open spec fn trip_descriptor_direction_id_part(m: SpecTripDescriptor) -> Seq<(u32, Enc)> {
    match m.direction_id {
        Some(x) => seq![(6u32, Enc::Varint(x as u64))],
        None => Seq::empty(),
    }
}

/// Field `modified_trip` of a `TripDescriptor` as it is written.
#[verifier::opaque]
pub open spec fn trip_descriptor_modified_trip_part(m: SpecTripDescriptor) -> Seq<(u32, Enc)> {
    match m.modified_trip {
        Some(x) => seq![(7u32, Enc::Bytes(modified_trip_selector_encoded(x)))],
        None => Seq::empty(),
    }
}

/// The fields of a `TripDescriptor` as they are written.
pub open spec fn trip_descriptor_encs(m: SpecTripDescriptor) -> Seq<(u32, Enc)> {
    trip_descriptor_trip_id_part(m) + (trip_descriptor_start_time_part(m) + (trip_descriptor_start_date_part(m) + (trip_descriptor_schedule_relationship_part(m) + (trip_descriptor_route_id_part(m) + (trip_descriptor_direction_id_part(m) + (trip_descriptor_modified_trip_part(m)))))))
}

#[verifier::rlimit(100)]
proof fn lemma_trip_descriptor_encs(m: SpecTripDescriptor)
    ensures
        trip_descriptor_encoded(m) == enc_all(trip_descriptor_encs(m)),
        tags_ok(trip_descriptor_encs(m)),
{
    reveal(trip_descriptor_encoded);
    let p0 = trip_descriptor_trip_id_part(m);
    let b0 = match m.trip_id {
            Some(x) => string_field(1, x),
            None => Seq::empty(),
        };
    assert(enc_all(p0) == b0 && tags_ok(p0)) by {
        reveal(trip_descriptor_trip_id_part);
        match m.trip_id {
            Some(x) => {
                lemma_enc_single(1u32, Enc::Bytes(encode_utf8(x)), 0);
                assert(enc_all(p0) =~= b0);
            },
            None => {
                assert(enc_all(p0) =~= b0);
            },
        }
    }
    let p1 = trip_descriptor_start_time_part(m);
    let b1 = match m.start_time {
            Some(x) => string_field(2, x),
            None => Seq::empty(),
        };
    assert(enc_all(p1) == b1 && tags_ok(p1)) by {
        reveal(trip_descriptor_start_time_part);
        match m.start_time {
            Some(x) => {
                lemma_enc_single(2u32, Enc::Bytes(encode_utf8(x)), 0);
                assert(enc_all(p1) =~= b1);
            },
            None => {
                assert(enc_all(p1) =~= b1);
            },
        }
    }
    let p2 = trip_descriptor_start_date_part(m);
    let b2 = match m.start_date {
            Some(x) => string_field(3, x),
            None => Seq::empty(),
        };
    assert(enc_all(p2) == b2 && tags_ok(p2)) by {
        reveal(trip_descriptor_start_date_part);
        match m.start_date {
            Some(x) => {
                lemma_enc_single(3u32, Enc::Bytes(encode_utf8(x)), 0);
                assert(enc_all(p2) =~= b2);
            },
            None => {
                assert(enc_all(p2) =~= b2);
            },
        }
    }
    let p3 = trip_descriptor_schedule_relationship_part(m);
    let b3 = opt_varint_field(
            4,
            match m.schedule_relationship {
                Some(v) => Some(v as u64),
                None => None,
            },
        );
    assert(enc_all(p3) == b3 && tags_ok(p3)) by {
        reveal(trip_descriptor_schedule_relationship_part);
        match m.schedule_relationship {
            Some(x) => {
                lemma_enc_single(4u32, Enc::Varint(x as u64), 0);
                assert(enc_all(p3) =~= b3);
            },
            None => {
                assert(enc_all(p3) =~= b3);
            },
        }
    }
    let p4 = trip_descriptor_route_id_part(m);
    let b4 = match m.route_id {
            Some(x) => string_field(5, x),
            None => Seq::empty(),
        };
    assert(enc_all(p4) == b4 && tags_ok(p4)) by {
        reveal(trip_descriptor_route_id_part);
        match m.route_id {
            Some(x) => {
                lemma_enc_single(5u32, Enc::Bytes(encode_utf8(x)), 0);
                assert(enc_all(p4) =~= b4);
            },
            None => {
                assert(enc_all(p4) =~= b4);
            },
        }
    }
    let p5 = trip_descriptor_direction_id_part(m);
    let b5 = opt_varint_field(
            6,
            match m.direction_id {
                Some(v) => Some(v as u64),
                None => None,
            },
        );
    assert(enc_all(p5) == b5 && tags_ok(p5)) by {
        reveal(trip_descriptor_direction_id_part);
        match m.direction_id {
            Some(x) => {
                lemma_enc_single(6u32, Enc::Varint(x as u64), 0);
                assert(enc_all(p5) =~= b5);
            },
            None => {
                assert(enc_all(p5) =~= b5);
            },
        }
    }
    let p6 = trip_descriptor_modified_trip_part(m);
    let b6 = opt_bytes_field(
            7,
            match m.modified_trip {
                Some(x) => Some(modified_trip_selector_encoded(x)),
                None => None,
            },
        );
    assert(enc_all(p6) == b6 && tags_ok(p6)) by {
        reveal(trip_descriptor_modified_trip_part);
        match m.modified_trip {
            Some(x) => {
                lemma_enc_single(7u32, Enc::Bytes(modified_trip_selector_encoded(x)), 0);
                assert(enc_all(p6) =~= b6);
            },
            None => {
                assert(enc_all(p6) =~= b6);
            },
        }
    }
    let r6 = p6;
    let s6 = b6;
    let r5 = p5 + r6;
    let s5 = b5 + s6;
    lemma_enc_add(p5, r6, 0);
    let r4 = p4 + r5;
    let s4 = b4 + s5;
    lemma_enc_add(p4, r5, 0);
    let r3 = p3 + r4;
    let s3 = b3 + s4;
    lemma_enc_add(p3, r4, 0);
    let r2 = p2 + r3;
    let s2 = b2 + s3;
    lemma_enc_add(p2, r3, 0);
    let r1 = p1 + r2;
    let s1 = b1 + s2;
    lemma_enc_add(p1, r2, 0);
    let r0 = p0 + r1;
    let s0 = b0 + s1;
    lemma_enc_add(p0, r1, 0);
    let l0 = b0;
    let l1 = l0 + b1;
    let l2 = l1 + b2;
    let l3 = l2 + b3;
    let l4 = l3 + b4;
    let l5 = l4 + b5;
    let l6 = l5 + b6;
    assert(l0 + s1 == s0);
    lemma_add_assoc(l0, b1, s2);
    assert(l1 + s2 == s0);
    lemma_add_assoc(l1, b2, s3);
    assert(l2 + s3 == s0);
    lemma_add_assoc(l2, b3, s4);
    assert(l3 + s4 == s0);
    lemma_add_assoc(l3, b4, s5);
    assert(l4 + s5 == s0);
    lemma_add_assoc(l4, b5, s6);
    assert(l5 + s6 == s0);
    assert(trip_descriptor_encoded(m) == l6);
    assert(trip_descriptor_encs(m) == r0);
}

proof fn lemma_trip_descriptor_trip_id_read(data: Seq<u8>, q: nat, m: SpecTripDescriptor, c: nat)
    requires
        trip_descriptor_raw_ok(m, c),
        c + 1 >= 2,
        q + enc_all(trip_descriptor_trip_id_part(m)).len() <= data.len() <= usize::MAX,
        data.subrange(q as int, (q + enc_all(trip_descriptor_trip_id_part(m)).len()) as int) == enc_all(trip_descriptor_trip_id_part(m)),
    ensures
        fold_fields(fields_at(trip_descriptor_trip_id_part(m), q), trip_descriptor_default(), trip_descriptor_step(data, c)) == Ok::<SpecTripDescriptor, ErrorKind>(
            SpecTripDescriptor { trip_id: m.trip_id, ..trip_descriptor_default() },
        ),
{
    let p0 = trip_descriptor_trip_id_part(m);
    let q0 = q;
    let step = trip_descriptor_step(data, c);
    let m0 = trip_descriptor_default();
    let m1 = SpecTripDescriptor { trip_id: m.trip_id, ..trip_descriptor_default() };
    reveal(trip_descriptor_trip_id_part);
    match m.trip_id {
        Some(x) => {
            lemma_enc_single(1u32, Enc::Bytes(encode_utf8(x)), q0);
            lemma_field_read(data, q0, q0 + enc_all(p0).len(), c, 1u32, Enc::Bytes(encode_utf8(x)));
            lemma_fold_single(field_at(1u32, Enc::Bytes(encode_utf8(x)), q0), m0, step);
            reveal(trip_descriptor_applied);
            encode_utf8_valid_utf8(x);
            encode_utf8_decode_utf8(x);
            assert(trip_descriptor_applied(data, field_at(1u32, Enc::Bytes(encode_utf8(x)), q0), m0, c) == Ok::<SpecTripDescriptor, ErrorKind>(m1));
        },
        None => {
                assert(p0 =~= Seq::<(u32, Enc)>::empty());
            },
    }
}

proof fn lemma_trip_descriptor_start_time_read(data: Seq<u8>, q: nat, m: SpecTripDescriptor, c: nat)
    requires
        trip_descriptor_raw_ok(m, c),
        c + 1 >= 2,
        q + enc_all(trip_descriptor_start_time_part(m)).len() <= data.len() <= usize::MAX,
        data.subrange(q as int, (q + enc_all(trip_descriptor_start_time_part(m)).len()) as int) == enc_all(trip_descriptor_start_time_part(m)),
    ensures
        fold_fields(fields_at(trip_descriptor_start_time_part(m), q), SpecTripDescriptor { trip_id: m.trip_id, ..trip_descriptor_default() }, trip_descriptor_step(data, c)) == Ok::<SpecTripDescriptor, ErrorKind>(
            SpecTripDescriptor { trip_id: m.trip_id, start_time: m.start_time, ..trip_descriptor_default() },
        ),
{
    let p1 = trip_descriptor_start_time_part(m);
    let q1 = q;
    let step = trip_descriptor_step(data, c);
    let m1 = SpecTripDescriptor { trip_id: m.trip_id, ..trip_descriptor_default() };
    let m2 = SpecTripDescriptor { trip_id: m.trip_id, start_time: m.start_time, ..trip_descriptor_default() };
    reveal(trip_descriptor_start_time_part);
    match m.start_time {
        Some(x) => {
            lemma_enc_single(2u32, Enc::Bytes(encode_utf8(x)), q1);
            lemma_field_read(data, q1, q1 + enc_all(p1).len(), c, 2u32, Enc::Bytes(encode_utf8(x)));
            lemma_fold_single(field_at(2u32, Enc::Bytes(encode_utf8(x)), q1), m1, step);
            reveal(trip_descriptor_applied);
            encode_utf8_valid_utf8(x);
            encode_utf8_decode_utf8(x);
            assert(trip_descriptor_applied(data, field_at(2u32, Enc::Bytes(encode_utf8(x)), q1), m1, c) == Ok::<SpecTripDescriptor, ErrorKind>(m2));
        },
        None => {
                assert(p1 =~= Seq::<(u32, Enc)>::empty());
            },
    }
}

proof fn lemma_trip_descriptor_start_date_read(data: Seq<u8>, q: nat, m: SpecTripDescriptor, c: nat)
    requires
        trip_descriptor_raw_ok(m, c),
        c + 1 >= 2,
        q + enc_all(trip_descriptor_start_date_part(m)).len() <= data.len() <= usize::MAX,
        data.subrange(q as int, (q + enc_all(trip_descriptor_start_date_part(m)).len()) as int) == enc_all(trip_descriptor_start_date_part(m)),
    ensures
        fold_fields(fields_at(trip_descriptor_start_date_part(m), q), SpecTripDescriptor { trip_id: m.trip_id, start_time: m.start_time, ..trip_descriptor_default() }, trip_descriptor_step(data, c)) == Ok::<SpecTripDescriptor, ErrorKind>(
            SpecTripDescriptor { trip_id: m.trip_id, start_time: m.start_time, start_date: m.start_date, ..trip_descriptor_default() },
        ),
{
    let p2 = trip_descriptor_start_date_part(m);
    let q2 = q;
    let step = trip_descriptor_step(data, c);
    let m2 = SpecTripDescriptor { trip_id: m.trip_id, start_time: m.start_time, ..trip_descriptor_default() };
    let m3 = SpecTripDescriptor { trip_id: m.trip_id, start_time: m.start_time, start_date: m.start_date, ..trip_descriptor_default() };
    reveal(trip_descriptor_start_date_part);
    match m.start_date {
        Some(x) => {
            lemma_enc_single(3u32, Enc::Bytes(encode_utf8(x)), q2);
            lemma_field_read(data, q2, q2 + enc_all(p2).len(), c, 3u32, Enc::Bytes(encode_utf8(x)));
            lemma_fold_single(field_at(3u32, Enc::Bytes(encode_utf8(x)), q2), m2, step);
            reveal(trip_descriptor_applied);
            encode_utf8_valid_utf8(x);
            encode_utf8_decode_utf8(x);
            assert(trip_descriptor_applied(data, field_at(3u32, Enc::Bytes(encode_utf8(x)), q2), m2, c) == Ok::<SpecTripDescriptor, ErrorKind>(m3));
        },
        None => {
                assert(p2 =~= Seq::<(u32, Enc)>::empty());
            },
    }
}

proof fn lemma_trip_descriptor_schedule_relationship_read(data: Seq<u8>, q: nat, m: SpecTripDescriptor, c: nat)
    requires
        trip_descriptor_raw_ok(m, c),
        c + 1 >= 2,
        q + enc_all(trip_descriptor_schedule_relationship_part(m)).len() <= data.len() <= usize::MAX,
        data.subrange(q as int, (q + enc_all(trip_descriptor_schedule_relationship_part(m)).len()) as int) == enc_all(trip_descriptor_schedule_relationship_part(m)),
    ensures
        fold_fields(fields_at(trip_descriptor_schedule_relationship_part(m), q), SpecTripDescriptor { trip_id: m.trip_id, start_time: m.start_time, start_date: m.start_date, ..trip_descriptor_default() }, trip_descriptor_step(data, c)) == Ok::<SpecTripDescriptor, ErrorKind>(
            SpecTripDescriptor { trip_id: m.trip_id, start_time: m.start_time, start_date: m.start_date, schedule_relationship: m.schedule_relationship, ..trip_descriptor_default() },
        ),
{
    let p3 = trip_descriptor_schedule_relationship_part(m);
    let q3 = q;
    let step = trip_descriptor_step(data, c);
    let m3 = SpecTripDescriptor { trip_id: m.trip_id, start_time: m.start_time, start_date: m.start_date, ..trip_descriptor_default() };
    let m4 = SpecTripDescriptor { trip_id: m.trip_id, start_time: m.start_time, start_date: m.start_date, schedule_relationship: m.schedule_relationship, ..trip_descriptor_default() };
    reveal(trip_descriptor_schedule_relationship_part);
    match m.schedule_relationship {
        Some(x) => {
            lemma_enc_single(4u32, Enc::Varint(x as u64), q3);
            lemma_field_read(data, q3, q3 + enc_all(p3).len(), c, 4u32, Enc::Varint(x as u64));
            lemma_fold_single(field_at(4u32, Enc::Varint(x as u64), q3), m3, step);
            reveal(trip_descriptor_applied);
            lemma_i32_wire(x);
            assert(trip_descriptor_applied(data, field_at(4u32, Enc::Varint(x as u64), q3), m3, c) == Ok::<SpecTripDescriptor, ErrorKind>(m4));
        },
        None => {
                assert(p3 =~= Seq::<(u32, Enc)>::empty());
            },
    }
}

proof fn lemma_trip_descriptor_route_id_read(data: Seq<u8>, q: nat, m: SpecTripDescriptor, c: nat)
    requires
        trip_descriptor_raw_ok(m, c),
        c + 1 >= 2,
        q + enc_all(trip_descriptor_route_id_part(m)).len() <= data.len() <= usize::MAX,
        data.subrange(q as int, (q + enc_all(trip_descriptor_route_id_part(m)).len()) as int) == enc_all(trip_descriptor_route_id_part(m)),
    ensures
        fold_fields(fields_at(trip_descriptor_route_id_part(m), q), SpecTripDescriptor { trip_id: m.trip_id, start_time: m.start_time, start_date: m.start_date, schedule_relationship: m.schedule_relationship, ..trip_descriptor_default() }, trip_descriptor_step(data, c)) == Ok::<SpecTripDescriptor, ErrorKind>(
            SpecTripDescriptor { trip_id: m.trip_id, start_time: m.start_time, start_date: m.start_date, schedule_relationship: m.schedule_relationship, route_id: m.route_id, ..trip_descriptor_default() },
        ),
{
    let p4 = trip_descriptor_route_id_part(m);
    let q4 = q;
    let step = trip_descriptor_step(data, c);
    let m4 = SpecTripDescriptor { trip_id: m.trip_id, start_time: m.start_time, start_date: m.start_date, schedule_relationship: m.schedule_relationship, ..trip_descriptor_default() };
    let m5 = SpecTripDescriptor { trip_id: m.trip_id, start_time: m.start_time, start_date: m.start_date, schedule_relationship: m.schedule_relationship, route_id: m.route_id, ..trip_descriptor_default() };
    reveal(trip_descriptor_route_id_part);
    match m.route_id {
        Some(x) => {
            lemma_enc_single(5u32, Enc::Bytes(encode_utf8(x)), q4);
            lemma_field_read(data, q4, q4 + enc_all(p4).len(), c, 5u32, Enc::Bytes(encode_utf8(x)));
            lemma_fold_single(field_at(5u32, Enc::Bytes(encode_utf8(x)), q4), m4, step);
            reveal(trip_descriptor_applied);
            encode_utf8_valid_utf8(x);
            encode_utf8_decode_utf8(x);
            assert(trip_descriptor_applied(data, field_at(5u32, Enc::Bytes(encode_utf8(x)), q4), m4, c) == Ok::<SpecTripDescriptor, ErrorKind>(m5));
        },
        None => {
                assert(p4 =~= Seq::<(u32, Enc)>::empty());
            },
    }
}

proof fn lemma_trip_descriptor_direction_id_read(data: Seq<u8>, q: nat, m: SpecTripDescriptor, c: nat)
    requires
        trip_descriptor_raw_ok(m, c),
        c + 1 >= 2,
        q + enc_all(trip_descriptor_direction_id_part(m)).len() <= data.len() <= usize::MAX,
        data.subrange(q as int, (q + enc_all(trip_descriptor_direction_id_part(m)).len()) as int) == enc_all(trip_descriptor_direction_id_part(m)),
    ensures
        fold_fields(fields_at(trip_descriptor_direction_id_part(m), q), SpecTripDescriptor { trip_id: m.trip_id, start_time: m.start_time, start_date: m.start_date, schedule_relationship: m.schedule_relationship, route_id: m.route_id, ..trip_descriptor_default() }, trip_descriptor_step(data, c)) == Ok::<SpecTripDescriptor, ErrorKind>(
            SpecTripDescriptor { trip_id: m.trip_id, start_time: m.start_time, start_date: m.start_date, schedule_relationship: m.schedule_relationship, route_id: m.route_id, direction_id: m.direction_id, ..trip_descriptor_default() },
        ),
{
    let p5 = trip_descriptor_direction_id_part(m);
    let q5 = q;
    let step = trip_descriptor_step(data, c);
    let m5 = SpecTripDescriptor { trip_id: m.trip_id, start_time: m.start_time, start_date: m.start_date, schedule_relationship: m.schedule_relationship, route_id: m.route_id, ..trip_descriptor_default() };
    let m6 = SpecTripDescriptor { trip_id: m.trip_id, start_time: m.start_time, start_date: m.start_date, schedule_relationship: m.schedule_relationship, route_id: m.route_id, direction_id: m.direction_id, ..trip_descriptor_default() };
    reveal(trip_descriptor_direction_id_part);
    match m.direction_id {
        Some(x) => {
            lemma_enc_single(6u32, Enc::Varint(x as u64), q5);
            lemma_field_read(data, q5, q5 + enc_all(p5).len(), c, 6u32, Enc::Varint(x as u64));
            lemma_fold_single(field_at(6u32, Enc::Varint(x as u64), q5), m5, step);
            reveal(trip_descriptor_applied);
            assert(trip_descriptor_applied(data, field_at(6u32, Enc::Varint(x as u64), q5), m5, c) == Ok::<SpecTripDescriptor, ErrorKind>(m6));
        },
        None => {
                assert(p5 =~= Seq::<(u32, Enc)>::empty());
            },
    }
}

proof fn lemma_trip_descriptor_modified_trip_read(data: Seq<u8>, q: nat, m: SpecTripDescriptor, c: nat)
    requires
        trip_descriptor_raw_ok(m, c),
        c + 1 >= 2,
        q + enc_all(trip_descriptor_modified_trip_part(m)).len() <= data.len() <= usize::MAX,
        data.subrange(q as int, (q + enc_all(trip_descriptor_modified_trip_part(m)).len()) as int) == enc_all(trip_descriptor_modified_trip_part(m)),
    ensures
        fold_fields(fields_at(trip_descriptor_modified_trip_part(m), q), SpecTripDescriptor { trip_id: m.trip_id, start_time: m.start_time, start_date: m.start_date, schedule_relationship: m.schedule_relationship, route_id: m.route_id, direction_id: m.direction_id, ..trip_descriptor_default() }, trip_descriptor_step(data, c)) == Ok::<SpecTripDescriptor, ErrorKind>(
            SpecTripDescriptor { trip_id: m.trip_id, start_time: m.start_time, start_date: m.start_date, schedule_relationship: m.schedule_relationship, route_id: m.route_id, direction_id: m.direction_id, modified_trip: m.modified_trip, ..trip_descriptor_default() },
        ),
{
    let p6 = trip_descriptor_modified_trip_part(m);
    let q6 = q;
    let step = trip_descriptor_step(data, c);
    let m6 = SpecTripDescriptor { trip_id: m.trip_id, start_time: m.start_time, start_date: m.start_date, schedule_relationship: m.schedule_relationship, route_id: m.route_id, direction_id: m.direction_id, ..trip_descriptor_default() };
    let m7 = SpecTripDescriptor { trip_id: m.trip_id, start_time: m.start_time, start_date: m.start_date, schedule_relationship: m.schedule_relationship, route_id: m.route_id, direction_id: m.direction_id, modified_trip: m.modified_trip, ..trip_descriptor_default() };
    reveal(trip_descriptor_modified_trip_part);
    match m.modified_trip {
        Some(x) => {
            lemma_enc_single(7u32, Enc::Bytes(modified_trip_selector_encoded(x)), q6);
            lemma_field_read(data, q6, q6 + enc_all(p6).len(), c, 7u32, Enc::Bytes(modified_trip_selector_encoded(x)));
            lemma_fold_single(field_at(7u32, Enc::Bytes(modified_trip_selector_encoded(x)), q6), m6, step);
            reveal(trip_descriptor_applied);
            let a = q6 + key_bytes(7nat, 2).len() + varint_bytes(modified_trip_selector_encoded(x).len()).len();
            lemma_modified_trip_selector_decoded(data, a, x, c);
            assert(trip_descriptor_applied(data, field_at(7u32, Enc::Bytes(modified_trip_selector_encoded(x)), q6), m6, c) == Ok::<SpecTripDescriptor, ErrorKind>(m7));
        },
        None => {
                assert(p6 =~= Seq::<(u32, Enc)>::empty());
            },
    }
}

proof fn lemma_trip_descriptor_fold(data: Seq<u8>, s: nat, m: SpecTripDescriptor, c: nat)
    requires
        trip_descriptor_raw_ok(m, c),
        c + 1 >= 2,
        s + enc_all(trip_descriptor_encs(m)).len() <= data.len() <= usize::MAX,
        data.subrange(s as int, (s + enc_all(trip_descriptor_encs(m)).len()) as int) == enc_all(trip_descriptor_encs(m)),
    ensures
        fold_fields(fields_at(trip_descriptor_encs(m), s), trip_descriptor_default(), trip_descriptor_step(data, c)) == Ok::<
            SpecTripDescriptor,
            ErrorKind,
        >(m),
{
    let es = trip_descriptor_encs(m);
    let step = trip_descriptor_step(data, c);
    let p0 = trip_descriptor_trip_id_part(m);
    let p1 = trip_descriptor_start_time_part(m);
    let p2 = trip_descriptor_start_date_part(m);
    let p3 = trip_descriptor_schedule_relationship_part(m);
    let p4 = trip_descriptor_route_id_part(m);
    let p5 = trip_descriptor_direction_id_part(m);
    let p6 = trip_descriptor_modified_trip_part(m);
    let r6 = p6;
    let r5 = p5 + r6;
    let r4 = p4 + r5;
    let r3 = p3 + r4;
    let r2 = p2 + r3;
    let r1 = p1 + r2;
    let r0 = p0 + r1;
    assert(es == r0);
    let m0 = trip_descriptor_default();
    let q0 = s;
    let m1 = SpecTripDescriptor { trip_id: m.trip_id, ..trip_descriptor_default() };
    let q1 = q0 + enc_all(p0).len();
    assert(fold_fields(fields_at(r0, q0), m0, step) == fold_fields(fields_at(r1, q1), m1, step)
        && q1 + enc_all(r1).len() <= data.len()
        && data.subrange(q1 as int, (q1 + enc_all(r1).len()) as int) == enc_all(r1)) by {
        lemma_enc_add(p0, r1, q0);
        lemma_subrange_split(data, q0, enc_all(p0), enc_all(r1));
        lemma_fold_add(fields_at(p0, q0), fields_at(r1, q1), m0, step);
        lemma_trip_descriptor_trip_id_read(data, q0, m, c);
    }
    let m2 = SpecTripDescriptor { trip_id: m.trip_id, start_time: m.start_time, ..trip_descriptor_default() };
    let q2 = q1 + enc_all(p1).len();
    assert(fold_fields(fields_at(r1, q1), m1, step) == fold_fields(fields_at(r2, q2), m2, step)
        && q2 + enc_all(r2).len() <= data.len()
        && data.subrange(q2 as int, (q2 + enc_all(r2).len()) as int) == enc_all(r2)) by {
        lemma_enc_add(p1, r2, q1);
        lemma_subrange_split(data, q1, enc_all(p1), enc_all(r2));
        lemma_fold_add(fields_at(p1, q1), fields_at(r2, q2), m1, step);
        lemma_trip_descriptor_start_time_read(data, q1, m, c);
    }
    let m3 = SpecTripDescriptor { trip_id: m.trip_id, start_time: m.start_time, start_date: m.start_date, ..trip_descriptor_default() };
    let q3 = q2 + enc_all(p2).len();
    assert(fold_fields(fields_at(r2, q2), m2, step) == fold_fields(fields_at(r3, q3), m3, step)
        && q3 + enc_all(r3).len() <= data.len()
        && data.subrange(q3 as int, (q3 + enc_all(r3).len()) as int) == enc_all(r3)) by {
        lemma_enc_add(p2, r3, q2);
        lemma_subrange_split(data, q2, enc_all(p2), enc_all(r3));
        lemma_fold_add(fields_at(p2, q2), fields_at(r3, q3), m2, step);
        lemma_trip_descriptor_start_date_read(data, q2, m, c);
    }
    let m4 = SpecTripDescriptor { trip_id: m.trip_id, start_time: m.start_time, start_date: m.start_date, schedule_relationship: m.schedule_relationship, ..trip_descriptor_default() };
    let q4 = q3 + enc_all(p3).len();
    assert(fold_fields(fields_at(r3, q3), m3, step) == fold_fields(fields_at(r4, q4), m4, step)
        && q4 + enc_all(r4).len() <= data.len()
        && data.subrange(q4 as int, (q4 + enc_all(r4).len()) as int) == enc_all(r4)) by {
        lemma_enc_add(p3, r4, q3);
        lemma_subrange_split(data, q3, enc_all(p3), enc_all(r4));
        lemma_fold_add(fields_at(p3, q3), fields_at(r4, q4), m3, step);
        lemma_trip_descriptor_schedule_relationship_read(data, q3, m, c);
    }
    let m5 = SpecTripDescriptor { trip_id: m.trip_id, start_time: m.start_time, start_date: m.start_date, schedule_relationship: m.schedule_relationship, route_id: m.route_id, ..trip_descriptor_default() };
    let q5 = q4 + enc_all(p4).len();
    assert(fold_fields(fields_at(r4, q4), m4, step) == fold_fields(fields_at(r5, q5), m5, step)
        && q5 + enc_all(r5).len() <= data.len()
        && data.subrange(q5 as int, (q5 + enc_all(r5).len()) as int) == enc_all(r5)) by {
        lemma_enc_add(p4, r5, q4);
        lemma_subrange_split(data, q4, enc_all(p4), enc_all(r5));
        lemma_fold_add(fields_at(p4, q4), fields_at(r5, q5), m4, step);
        lemma_trip_descriptor_route_id_read(data, q4, m, c);
    }
    let m6 = SpecTripDescriptor { trip_id: m.trip_id, start_time: m.start_time, start_date: m.start_date, schedule_relationship: m.schedule_relationship, route_id: m.route_id, direction_id: m.direction_id, ..trip_descriptor_default() };
    let q6 = q5 + enc_all(p5).len();
    assert(fold_fields(fields_at(r5, q5), m5, step) == fold_fields(fields_at(r6, q6), m6, step)
        && q6 + enc_all(r6).len() <= data.len()
        && data.subrange(q6 as int, (q6 + enc_all(r6).len()) as int) == enc_all(r6)) by {
        lemma_enc_add(p5, r6, q5);
        lemma_subrange_split(data, q5, enc_all(p5), enc_all(r6));
        lemma_fold_add(fields_at(p5, q5), fields_at(r6, q6), m5, step);
        lemma_trip_descriptor_direction_id_read(data, q5, m, c);
    }
    let m7 = SpecTripDescriptor { trip_id: m.trip_id, start_time: m.start_time, start_date: m.start_date, schedule_relationship: m.schedule_relationship, route_id: m.route_id, direction_id: m.direction_id, modified_trip: m.modified_trip, ..trip_descriptor_default() };
    let q7 = q6 + enc_all(p6).len();
    lemma_trip_descriptor_modified_trip_read(data, q6, m, c);
    assert(m7 == m);
}

/// Decoding the bytes of a `TripDescriptor` gives it back.
pub proof fn lemma_trip_descriptor_decoded(data: Seq<u8>, s: nat, m: SpecTripDescriptor, ctx: nat)
    requires
        trip_descriptor_raw_ok(m, (ctx - 1) as nat),
        ctx >= 2,
        s + trip_descriptor_encoded(m).len() <= data.len() <= usize::MAX,
        data.subrange(s as int, (s + trip_descriptor_encoded(m).len()) as int) == trip_descriptor_encoded(m),
    ensures
        trip_descriptor_merged(data, s, s + trip_descriptor_encoded(m).len(), ctx, trip_descriptor_default()) == Ok::<
            SpecTripDescriptor,
            ErrorKind,
        >(m),
{
    lemma_trip_descriptor_encs(m);
    lemma_fields_read(data, s, trip_descriptor_encs(m), (ctx - 1) as nat);
    lemma_trip_descriptor_fold(data, s, m, (ctx - 1) as nat);
}

/// Every part of a `ModifiedTripSelector` kept as raw bytes, at any depth, passes the
/// check that decoding gives it when the fields of the `ModifiedTripSelector` are read
/// with budget `c`.
pub open spec fn modified_trip_selector_raw_ok(m: SpecModifiedTripSelector, c: nat) -> bool {
    true
}

/// Field `modifications_id` of a `ModifiedTripSelector` as it is written.
#[verifier::opaque]
pub open spec fn modified_trip_selector_modifications_id_part(m: SpecModifiedTripSelector) -> Seq<(u32, Enc)> {
    match m.modifications_id {
        Some(x) => seq![(1u32, Enc::Bytes(encode_utf8(x)))],
        None => Seq::empty(),
    }
}

/// Field `affected_trip_id` of a `ModifiedTripSelector` as it is written.
#[verifier::opaque]
pub open spec fn modified_trip_selector_affected_trip_id_part(m: SpecModifiedTripSelector) -> Seq<(u32, Enc)> {
    match m.affected_trip_id {
        Some(x) => seq![(2u32, Enc::Bytes(encode_utf8(x)))],
        None => Seq::empty(),
    }
}

/// Field `start_time` of a `ModifiedTripSelector` as it is written.
#[verifier::opaque]
pub open spec fn modified_trip_selector_start_time_part(m: SpecModifiedTripSelector) -> Seq<(u32, Enc)> {
    match m.start_time {
        Some(x) => seq![(3u32, Enc::Bytes(encode_utf8(x)))],
        None => Seq::empty(),
    }
}

/// Field `start_date` of a `ModifiedTripSelector` as it is written.
#[verifier::opaque]
pub open spec fn modified_trip_selector_start_date_part(m: SpecModifiedTripSelector) -> Seq<(u32, Enc)> {
    match m.start_date {
        Some(x) => seq![(4u32, Enc::Bytes(encode_utf8(x)))],
        None => Seq::empty(),
    }
}

/// The fields of a `ModifiedTripSelector` as they are written.
pub open spec fn modified_trip_selector_encs(m: SpecModifiedTripSelector) -> Seq<(u32, Enc)> {
    modified_trip_selector_modifications_id_part(m) + (modified_trip_selector_affected_trip_id_part(m) + (modified_trip_selector_start_time_part(m) + (modified_trip_selector_start_date_part(m))))
}

proof fn lemma_modified_trip_selector_encs(m: SpecModifiedTripSelector)
    ensures
        modified_trip_selector_encoded(m) == enc_all(modified_trip_selector_encs(m)),
        tags_ok(modified_trip_selector_encs(m)),
{
    reveal(modified_trip_selector_encoded);
    let p0 = modified_trip_selector_modifications_id_part(m);
    let b0 = match m.modifications_id {
            Some(x) => string_field(1, x),
            None => Seq::empty(),
        };
    assert(enc_all(p0) == b0 && tags_ok(p0)) by {
        reveal(modified_trip_selector_modifications_id_part);
        match m.modifications_id {
            Some(x) => {
                lemma_enc_single(1u32, Enc::Bytes(encode_utf8(x)), 0);
                assert(enc_all(p0) =~= b0);
            },
            None => {
                assert(enc_all(p0) =~= b0);
            },
        }
    }
    let p1 = modified_trip_selector_affected_trip_id_part(m);
    let b1 = match m.affected_trip_id {
            Some(x) => string_field(2, x),
            None => Seq::empty(),
        };
    assert(enc_all(p1) == b1 && tags_ok(p1)) by {
        reveal(modified_trip_selector_affected_trip_id_part);
        match m.affected_trip_id {
            Some(x) => {
                lemma_enc_single(2u32, Enc::Bytes(encode_utf8(x)), 0);
                assert(enc_all(p1) =~= b1);
            },
            None => {
                assert(enc_all(p1) =~= b1);
            },
        }
    }
    let p2 = modified_trip_selector_start_time_part(m);
    let b2 = match m.start_time {
            Some(x) => string_field(3, x),
            None => Seq::empty(),
        };
    assert(enc_all(p2) == b2 && tags_ok(p2)) by {
        reveal(modified_trip_selector_start_time_part);
        match m.start_time {
            Some(x) => {
                lemma_enc_single(3u32, Enc::Bytes(encode_utf8(x)), 0);
                assert(enc_all(p2) =~= b2);
            },
            None => {
                assert(enc_all(p2) =~= b2);
            },
        }
    }
    let p3 = modified_trip_selector_start_date_part(m);
    let b3 = match m.start_date {
            Some(x) => string_field(4, x),
            None => Seq::empty(),
        };
    assert(enc_all(p3) == b3 && tags_ok(p3)) by {
        reveal(modified_trip_selector_start_date_part);
        match m.start_date {
            Some(x) => {
                lemma_enc_single(4u32, Enc::Bytes(encode_utf8(x)), 0);
                assert(enc_all(p3) =~= b3);
            },
            None => {
                assert(enc_all(p3) =~= b3);
            },
        }
    }
    let r3 = p3;
    let s3 = b3;
    let r2 = p2 + r3;
    let s2 = b2 + s3;
    lemma_enc_add(p2, r3, 0);
    let r1 = p1 + r2;
    let s1 = b1 + s2;
    lemma_enc_add(p1, r2, 0);
    let r0 = p0 + r1;
    let s0 = b0 + s1;
    lemma_enc_add(p0, r1, 0);
    let l0 = b0;
    let l1 = l0 + b1;
    let l2 = l1 + b2;
    let l3 = l2 + b3;
    assert(l0 + s1 == s0);
    lemma_add_assoc(l0, b1, s2);
    assert(l1 + s2 == s0);
    lemma_add_assoc(l1, b2, s3);
    assert(l2 + s3 == s0);
    assert(modified_trip_selector_encoded(m) == l3);
    assert(modified_trip_selector_encs(m) == r0);
}

proof fn lemma_modified_trip_selector_modifications_id_read(data: Seq<u8>, q: nat, m: SpecModifiedTripSelector, c: nat)
    requires
        modified_trip_selector_raw_ok(m, c),
        c + 1 >= 1,
        q + enc_all(modified_trip_selector_modifications_id_part(m)).len() <= data.len() <= usize::MAX,
        data.subrange(q as int, (q + enc_all(modified_trip_selector_modifications_id_part(m)).len()) as int) == enc_all(modified_trip_selector_modifications_id_part(m)),
    ensures
        fold_fields(fields_at(modified_trip_selector_modifications_id_part(m), q), modified_trip_selector_default(), modified_trip_selector_step(data, c)) == Ok::<SpecModifiedTripSelector, ErrorKind>(
            SpecModifiedTripSelector { modifications_id: m.modifications_id, ..modified_trip_selector_default() },
        ),
{
    let p0 = modified_trip_selector_modifications_id_part(m);
    let q0 = q;
    let step = modified_trip_selector_step(data, c);
    let m0 = modified_trip_selector_default();
    let m1 = SpecModifiedTripSelector { modifications_id: m.modifications_id, ..modified_trip_selector_default() };
    reveal(modified_trip_selector_modifications_id_part);
    match m.modifications_id {
        Some(x) => {
            lemma_enc_single(1u32, Enc::Bytes(encode_utf8(x)), q0);
            lemma_field_read(data, q0, q0 + enc_all(p0).len(), c, 1u32, Enc::Bytes(encode_utf8(x)));
            lemma_fold_single(field_at(1u32, Enc::Bytes(encode_utf8(x)), q0), m0, step);
            reveal(modified_trip_selector_applied);
            encode_utf8_valid_utf8(x);
            encode_utf8_decode_utf8(x);
            assert(modified_trip_selector_applied(data, field_at(1u32, Enc::Bytes(encode_utf8(x)), q0), m0, c) == Ok::<SpecModifiedTripSelector, ErrorKind>(m1));
        },
        None => {
                assert(p0 =~= Seq::<(u32, Enc)>::empty());
            },
    }
}

proof fn lemma_modified_trip_selector_affected_trip_id_read(data: Seq<u8>, q: nat, m: SpecModifiedTripSelector, c: nat)
    requires
        modified_trip_selector_raw_ok(m, c),
        c + 1 >= 1,
        q + enc_all(modified_trip_selector_affected_trip_id_part(m)).len() <= data.len() <= usize::MAX,
        data.subrange(q as int, (q + enc_all(modified_trip_selector_affected_trip_id_part(m)).len()) as int) == enc_all(modified_trip_selector_affected_trip_id_part(m)),
    ensures
        fold_fields(fields_at(modified_trip_selector_affected_trip_id_part(m), q), SpecModifiedTripSelector { modifications_id: m.modifications_id, ..modified_trip_selector_default() }, modified_trip_selector_step(data, c)) == Ok::<SpecModifiedTripSelector, ErrorKind>(
            SpecModifiedTripSelector { modifications_id: m.modifications_id, affected_trip_id: m.affected_trip_id, ..modified_trip_selector_default() },
        ),
{
    let p1 = modified_trip_selector_affected_trip_id_part(m);
    let q1 = q;
    let step = modified_trip_selector_step(data, c);
    let m1 = SpecModifiedTripSelector { modifications_id: m.modifications_id, ..modified_trip_selector_default() };
    let m2 = SpecModifiedTripSelector { modifications_id: m.modifications_id, affected_trip_id: m.affected_trip_id, ..modified_trip_selector_default() };
    reveal(modified_trip_selector_affected_trip_id_part);
    match m.affected_trip_id {
        Some(x) => {
            lemma_enc_single(2u32, Enc::Bytes(encode_utf8(x)), q1);
            lemma_field_read(data, q1, q1 + enc_all(p1).len(), c, 2u32, Enc::Bytes(encode_utf8(x)));
            lemma_fold_single(field_at(2u32, Enc::Bytes(encode_utf8(x)), q1), m1, step);
            reveal(modified_trip_selector_applied);
            encode_utf8_valid_utf8(x);
            encode_utf8_decode_utf8(x);
            assert(modified_trip_selector_applied(data, field_at(2u32, Enc::Bytes(encode_utf8(x)), q1), m1, c) == Ok::<SpecModifiedTripSelector, ErrorKind>(m2));
        },
        None => {
                assert(p1 =~= Seq::<(u32, Enc)>::empty());
            },
    }
}

proof fn lemma_modified_trip_selector_start_time_read(data: Seq<u8>, q: nat, m: SpecModifiedTripSelector, c: nat)
    requires
        modified_trip_selector_raw_ok(m, c),
        c + 1 >= 1,
        q + enc_all(modified_trip_selector_start_time_part(m)).len() <= data.len() <= usize::MAX,
        data.subrange(q as int, (q + enc_all(modified_trip_selector_start_time_part(m)).len()) as int) == enc_all(modified_trip_selector_start_time_part(m)),
    ensures
        fold_fields(fields_at(modified_trip_selector_start_time_part(m), q), SpecModifiedTripSelector { modifications_id: m.modifications_id, affected_trip_id: m.affected_trip_id, ..modified_trip_selector_default() }, modified_trip_selector_step(data, c)) == Ok::<SpecModifiedTripSelector, ErrorKind>(
            SpecModifiedTripSelector { modifications_id: m.modifications_id, affected_trip_id: m.affected_trip_id, start_time: m.start_time, ..modified_trip_selector_default() },
        ),
{
    let p2 = modified_trip_selector_start_time_part(m);
    let q2 = q;
    let step = modified_trip_selector_step(data, c);
    let m2 = SpecModifiedTripSelector { modifications_id: m.modifications_id, affected_trip_id: m.affected_trip_id, ..modified_trip_selector_default() };
    let m3 = SpecModifiedTripSelector { modifications_id: m.modifications_id, affected_trip_id: m.affected_trip_id, start_time: m.start_time, ..modified_trip_selector_default() };
    reveal(modified_trip_selector_start_time_part);
    match m.start_time {
        Some(x) => {
            lemma_enc_single(3u32, Enc::Bytes(encode_utf8(x)), q2);
            lemma_field_read(data, q2, q2 + enc_all(p2).len(), c, 3u32, Enc::Bytes(encode_utf8(x)));
            lemma_fold_single(field_at(3u32, Enc::Bytes(encode_utf8(x)), q2), m2, step);
            reveal(modified_trip_selector_applied);
            encode_utf8_valid_utf8(x);
            encode_utf8_decode_utf8(x);
            assert(modified_trip_selector_applied(data, field_at(3u32, Enc::Bytes(encode_utf8(x)), q2), m2, c) == Ok::<SpecModifiedTripSelector, ErrorKind>(m3));
        },
        None => {
                assert(p2 =~= Seq::<(u32, Enc)>::empty());
            },
    }
}

proof fn lemma_modified_trip_selector_start_date_read(data: Seq<u8>, q: nat, m: SpecModifiedTripSelector, c: nat)
    requires
        modified_trip_selector_raw_ok(m, c),
        c + 1 >= 1,
        q + enc_all(modified_trip_selector_start_date_part(m)).len() <= data.len() <= usize::MAX,
        data.subrange(q as int, (q + enc_all(modified_trip_selector_start_date_part(m)).len()) as int) == enc_all(modified_trip_selector_start_date_part(m)),
    ensures
        fold_fields(fields_at(modified_trip_selector_start_date_part(m), q), SpecModifiedTripSelector { modifications_id: m.modifications_id, affected_trip_id: m.affected_trip_id, start_time: m.start_time, ..modified_trip_selector_default() }, modified_trip_selector_step(data, c)) == Ok::<SpecModifiedTripSelector, ErrorKind>(
            SpecModifiedTripSelector { modifications_id: m.modifications_id, affected_trip_id: m.affected_trip_id, start_time: m.start_time, start_date: m.start_date, ..modified_trip_selector_default() },
        ),
{
    let p3 = modified_trip_selector_start_date_part(m);
    let q3 = q;
    let step = modified_trip_selector_step(data, c);
    let m3 = SpecModifiedTripSelector { modifications_id: m.modifications_id, affected_trip_id: m.affected_trip_id, start_time: m.start_time, ..modified_trip_selector_default() };
    let m4 = SpecModifiedTripSelector { modifications_id: m.modifications_id, affected_trip_id: m.affected_trip_id, start_time: m.start_time, start_date: m.start_date, ..modified_trip_selector_default() };
    reveal(modified_trip_selector_start_date_part);
    match m.start_date {
        Some(x) => {
            lemma_enc_single(4u32, Enc::Bytes(encode_utf8(x)), q3);
            lemma_field_read(data, q3, q3 + enc_all(p3).len(), c, 4u32, Enc::Bytes(encode_utf8(x)));
            lemma_fold_single(field_at(4u32, Enc::Bytes(encode_utf8(x)), q3), m3, step);
            reveal(modified_trip_selector_applied);
            encode_utf8_valid_utf8(x);
            encode_utf8_decode_utf8(x);
            assert(modified_trip_selector_applied(data, field_at(4u32, Enc::Bytes(encode_utf8(x)), q3), m3, c) == Ok::<SpecModifiedTripSelector, ErrorKind>(m4));
        },
        None => {
                assert(p3 =~= Seq::<(u32, Enc)>::empty());
            },
    }
}

proof fn lemma_modified_trip_selector_fold(data: Seq<u8>, s: nat, m: SpecModifiedTripSelector, c: nat)
    requires
        modified_trip_selector_raw_ok(m, c),
        c + 1 >= 1,
        s + enc_all(modified_trip_selector_encs(m)).len() <= data.len() <= usize::MAX,
        data.subrange(s as int, (s + enc_all(modified_trip_selector_encs(m)).len()) as int) == enc_all(modified_trip_selector_encs(m)),
    ensures
        fold_fields(fields_at(modified_trip_selector_encs(m), s), modified_trip_selector_default(), modified_trip_selector_step(data, c)) == Ok::<
            SpecModifiedTripSelector,
            ErrorKind,
        >(m),
{
    let es = modified_trip_selector_encs(m);
    let step = modified_trip_selector_step(data, c);
    let p0 = modified_trip_selector_modifications_id_part(m);
    let p1 = modified_trip_selector_affected_trip_id_part(m);
    let p2 = modified_trip_selector_start_time_part(m);
    let p3 = modified_trip_selector_start_date_part(m);
    let r3 = p3;
    let r2 = p2 + r3;
    let r1 = p1 + r2;
    let r0 = p0 + r1;
    assert(es == r0);
    let m0 = modified_trip_selector_default();
    let q0 = s;
    let m1 = SpecModifiedTripSelector { modifications_id: m.modifications_id, ..modified_trip_selector_default() };
    let q1 = q0 + enc_all(p0).len();
    assert(fold_fields(fields_at(r0, q0), m0, step) == fold_fields(fields_at(r1, q1), m1, step)
        && q1 + enc_all(r1).len() <= data.len()
        && data.subrange(q1 as int, (q1 + enc_all(r1).len()) as int) == enc_all(r1)) by {
        lemma_enc_add(p0, r1, q0);
        lemma_subrange_split(data, q0, enc_all(p0), enc_all(r1));
        lemma_fold_add(fields_at(p0, q0), fields_at(r1, q1), m0, step);
        lemma_modified_trip_selector_modifications_id_read(data, q0, m, c);
    }
    let m2 = SpecModifiedTripSelector { modifications_id: m.modifications_id, affected_trip_id: m.affected_trip_id, ..modified_trip_selector_default() };
    let q2 = q1 + enc_all(p1).len();
    assert(fold_fields(fields_at(r1, q1), m1, step) == fold_fields(fields_at(r2, q2), m2, step)
        && q2 + enc_all(r2).len() <= data.len()
        && data.subrange(q2 as int, (q2 + enc_all(r2).len()) as int) == enc_all(r2)) by {
        lemma_enc_add(p1, r2, q1);
        lemma_subrange_split(data, q1, enc_all(p1), enc_all(r2));
        lemma_fold_add(fields_at(p1, q1), fields_at(r2, q2), m1, step);
        lemma_modified_trip_selector_affected_trip_id_read(data, q1, m, c);
    }
    let m3 = SpecModifiedTripSelector { modifications_id: m.modifications_id, affected_trip_id: m.affected_trip_id, start_time: m.start_time, ..modified_trip_selector_default() };
    let q3 = q2 + enc_all(p2).len();
    assert(fold_fields(fields_at(r2, q2), m2, step) == fold_fields(fields_at(r3, q3), m3, step)
        && q3 + enc_all(r3).len() <= data.len()
        && data.subrange(q3 as int, (q3 + enc_all(r3).len()) as int) == enc_all(r3)) by {
        lemma_enc_add(p2, r3, q2);
        lemma_subrange_split(data, q2, enc_all(p2), enc_all(r3));
        lemma_fold_add(fields_at(p2, q2), fields_at(r3, q3), m2, step);
        lemma_modified_trip_selector_start_time_read(data, q2, m, c);
    }
    let m4 = SpecModifiedTripSelector { modifications_id: m.modifications_id, affected_trip_id: m.affected_trip_id, start_time: m.start_time, start_date: m.start_date, ..modified_trip_selector_default() };
    let q4 = q3 + enc_all(p3).len();
    lemma_modified_trip_selector_start_date_read(data, q3, m, c);
    assert(m4 == m);
}

/// Decoding the bytes of a `ModifiedTripSelector` gives it back.
pub proof fn lemma_modified_trip_selector_decoded(data: Seq<u8>, s: nat, m: SpecModifiedTripSelector, ctx: nat)
    requires
        modified_trip_selector_raw_ok(m, (ctx - 1) as nat),
        ctx >= 1,
        s + modified_trip_selector_encoded(m).len() <= data.len() <= usize::MAX,
        data.subrange(s as int, (s + modified_trip_selector_encoded(m).len()) as int) == modified_trip_selector_encoded(m),
    ensures
        modified_trip_selector_merged(data, s, s + modified_trip_selector_encoded(m).len(), ctx, modified_trip_selector_default()) == Ok::<
            SpecModifiedTripSelector,
            ErrorKind,
        >(m),
{
    lemma_modified_trip_selector_encs(m);
    lemma_fields_read(data, s, modified_trip_selector_encs(m), (ctx - 1) as nat);
    lemma_modified_trip_selector_fold(data, s, m, (ctx - 1) as nat);
}

/// Every part of a `VehicleDescriptor` kept as raw bytes, at any depth, passes the
/// check that decoding gives it when the fields of the `VehicleDescriptor` are read
/// with budget `c`.
pub open spec fn vehicle_descriptor_raw_ok(m: SpecVehicleDescriptor, c: nat) -> bool {
    true
}

/// Field `id` of a `VehicleDescriptor` as it is written.
#[verifier::opaque]
pub open spec fn vehicle_descriptor_id_part(m: SpecVehicleDescriptor) -> Seq<(u32, Enc)> {
    match m.id {
        Some(x) => seq![(1u32, Enc::Bytes(encode_utf8(x)))],
        None => Seq::empty(),
    }
}

/// Field `label` of a `VehicleDescriptor` as it is written.
#[verifier::opaque]
pub open spec fn vehicle_descriptor_label_part(m: SpecVehicleDescriptor) -> Seq<(u32, Enc)> {
    match m.label {
        Some(x) => seq![(2u32, Enc::Bytes(encode_utf8(x)))],
        None => Seq::empty(),
    }
}

/// Field `license_plate` of a `VehicleDescriptor` as it is written.
#[verifier::opaque]
pub open spec fn vehicle_descriptor_license_plate_part(m: SpecVehicleDescriptor) -> Seq<(u32, Enc)> {
    match m.license_plate {
        Some(x) => seq![(3u32, Enc::Bytes(encode_utf8(x)))],
        None => Seq::empty(),
    }
}

/// Field `wheelchair_accessible` of a `VehicleDescriptor` as it is written.
#[verifier::opaque]
pub open spec fn vehicle_descriptor_wheelchair_accessible_part(m: SpecVehicleDescriptor) -> Seq<(u32, Enc)> {
    match m.wheelchair_accessible {
        Some(x) => seq![(4u32, Enc::Varint(x as u64))],
        None => Seq::empty(),
    }
}

/// The fields of a `VehicleDescriptor` as they are written.
pub open spec fn vehicle_descriptor_encs(m: SpecVehicleDescriptor) -> Seq<(u32, Enc)> {
    vehicle_descriptor_id_part(m) + (vehicle_descriptor_label_part(m) + (vehicle_descriptor_license_plate_part(m) + (vehicle_descriptor_wheelchair_accessible_part(m))))
}

proof fn lemma_vehicle_descriptor_encs(m: SpecVehicleDescriptor)
    ensures
        vehicle_descriptor_encoded(m) == enc_all(vehicle_descriptor_encs(m)),
        tags_ok(vehicle_descriptor_encs(m)),
{
    reveal(vehicle_descriptor_encoded);
    let p0 = vehicle_descriptor_id_part(m);
    let b0 = match m.id {
            Some(x) => string_field(1, x),
            None => Seq::empty(),
        };
    assert(enc_all(p0) == b0 && tags_ok(p0)) by {
        reveal(vehicle_descriptor_id_part);
        match m.id {
            Some(x) => {
                lemma_enc_single(1u32, Enc::Bytes(encode_utf8(x)), 0);
                assert(enc_all(p0) =~= b0);
            },
            None => {
                assert(enc_all(p0) =~= b0);
            },
        }
    }
    let p1 = vehicle_descriptor_label_part(m);
    let b1 = match m.label {
            Some(x) => string_field(2, x),
            None => Seq::empty(),
        };
    assert(enc_all(p1) == b1 && tags_ok(p1)) by {
        reveal(vehicle_descriptor_label_part);
        match m.label {
            Some(x) => {
                lemma_enc_single(2u32, Enc::Bytes(encode_utf8(x)), 0);
                assert(enc_all(p1) =~= b1);
            },
            None => {
                assert(enc_all(p1) =~= b1);
            },
        }
    }
    let p2 = vehicle_descriptor_license_plate_part(m);
    let b2 = match m.license_plate {
            Some(x) => string_field(3, x),
            None => Seq::empty(),
        };
    assert(enc_all(p2) == b2 && tags_ok(p2)) by {
        reveal(vehicle_descriptor_license_plate_part);
        match m.license_plate {
            Some(x) => {
                lemma_enc_single(3u32, Enc::Bytes(encode_utf8(x)), 0);
                assert(enc_all(p2) =~= b2);
            },
            None => {
                assert(enc_all(p2) =~= b2);
            },
        }
    }
    let p3 = vehicle_descriptor_wheelchair_accessible_part(m);
    let b3 = opt_varint_field(
            4,
            match m.wheelchair_accessible {
                Some(v) => Some(v as u64),
                None => None,
            },
        );
    assert(enc_all(p3) == b3 && tags_ok(p3)) by {
        reveal(vehicle_descriptor_wheelchair_accessible_part);
        match m.wheelchair_accessible {
            Some(x) => {
                lemma_enc_single(4u32, Enc::Varint(x as u64), 0);
                assert(enc_all(p3) =~= b3);
            },
            None => {
                assert(enc_all(p3) =~= b3);
            },
        }
    }
    let r3 = p3;
    let s3 = b3;
    let r2 = p2 + r3;
    let s2 = b2 + s3;
    lemma_enc_add(p2, r3, 0);
    let r1 = p1 + r2;
    let s1 = b1 + s2;
    lemma_enc_add(p1, r2, 0);
    let r0 = p0 + r1;
    let s0 = b0 + s1;
    lemma_enc_add(p0, r1, 0);
    let l0 = b0;
    let l1 = l0 + b1;
    let l2 = l1 + b2;
    let l3 = l2 + b3;
    assert(l0 + s1 == s0);
    lemma_add_assoc(l0, b1, s2);
    assert(l1 + s2 == s0);
    lemma_add_assoc(l1, b2, s3);
    assert(l2 + s3 == s0);
    assert(vehicle_descriptor_encoded(m) == l3);
    assert(vehicle_descriptor_encs(m) == r0);
}

proof fn lemma_vehicle_descriptor_id_read(data: Seq<u8>, q: nat, m: SpecVehicleDescriptor, c: nat)
    requires
        vehicle_descriptor_raw_ok(m, c),
        c + 1 >= 1,
        q + enc_all(vehicle_descriptor_id_part(m)).len() <= data.len() <= usize::MAX,
        data.subrange(q as int, (q + enc_all(vehicle_descriptor_id_part(m)).len()) as int) == enc_all(vehicle_descriptor_id_part(m)),
    ensures
        fold_fields(fields_at(vehicle_descriptor_id_part(m), q), vehicle_descriptor_default(), vehicle_descriptor_step(data, c)) == Ok::<SpecVehicleDescriptor, ErrorKind>(
            SpecVehicleDescriptor { id: m.id, ..vehicle_descriptor_default() },
        ),
{
    let p0 = vehicle_descriptor_id_part(m);
    let q0 = q;
    let step = vehicle_descriptor_step(data, c);
    let m0 = vehicle_descriptor_default();
    let m1 = SpecVehicleDescriptor { id: m.id, ..vehicle_descriptor_default() };
    reveal(vehicle_descriptor_id_part);
    match m.id {
        Some(x) => {
            lemma_enc_single(1u32, Enc::Bytes(encode_utf8(x)), q0);
            lemma_field_read(data, q0, q0 + enc_all(p0).len(), c, 1u32, Enc::Bytes(encode_utf8(x)));
            lemma_fold_single(field_at(1u32, Enc::Bytes(encode_utf8(x)), q0), m0, step);
            reveal(vehicle_descriptor_applied);
            encode_utf8_valid_utf8(x);
            encode_utf8_decode_utf8(x);
            assert(vehicle_descriptor_applied(data, field_at(1u32, Enc::Bytes(encode_utf8(x)), q0), m0, c) == Ok::<SpecVehicleDescriptor, ErrorKind>(m1));
        },
        None => {
                assert(p0 =~= Seq::<(u32, Enc)>::empty());
            },
    }
}

proof fn lemma_vehicle_descriptor_label_read(data: Seq<u8>, q: nat, m: SpecVehicleDescriptor, c: nat)
    requires
        vehicle_descriptor_raw_ok(m, c),
        c + 1 >= 1,
        q + enc_all(vehicle_descriptor_label_part(m)).len() <= data.len() <= usize::MAX,
        data.subrange(q as int, (q + enc_all(vehicle_descriptor_label_part(m)).len()) as int) == enc_all(vehicle_descriptor_label_part(m)),
    ensures
        fold_fields(fields_at(vehicle_descriptor_label_part(m), q), SpecVehicleDescriptor { id: m.id, ..vehicle_descriptor_default() }, vehicle_descriptor_step(data, c)) == Ok::<SpecVehicleDescriptor, ErrorKind>(
            SpecVehicleDescriptor { id: m.id, label: m.label, ..vehicle_descriptor_default() },
        ),
{
    let p1 = vehicle_descriptor_label_part(m);
    let q1 = q;
    let step = vehicle_descriptor_step(data, c);
    let m1 = SpecVehicleDescriptor { id: m.id, ..vehicle_descriptor_default() };
    let m2 = SpecVehicleDescriptor { id: m.id, label: m.label, ..vehicle_descriptor_default() };
    reveal(vehicle_descriptor_label_part);
    match m.label {
        Some(x) => {
            lemma_enc_single(2u32, Enc::Bytes(encode_utf8(x)), q1);
            lemma_field_read(data, q1, q1 + enc_all(p1).len(), c, 2u32, Enc::Bytes(encode_utf8(x)));
            lemma_fold_single(field_at(2u32, Enc::Bytes(encode_utf8(x)), q1), m1, step);
            reveal(vehicle_descriptor_applied);
            encode_utf8_valid_utf8(x);
            encode_utf8_decode_utf8(x);
            assert(vehicle_descriptor_applied(data, field_at(2u32, Enc::Bytes(encode_utf8(x)), q1), m1, c) == Ok::<SpecVehicleDescriptor, ErrorKind>(m2));
        },
        None => {
                assert(p1 =~= Seq::<(u32, Enc)>::empty());
            },
    }
}

proof fn lemma_vehicle_descriptor_license_plate_read(data: Seq<u8>, q: nat, m: SpecVehicleDescriptor, c: nat)
    requires
        vehicle_descriptor_raw_ok(m, c),
        c + 1 >= 1,
        q + enc_all(vehicle_descriptor_license_plate_part(m)).len() <= data.len() <= usize::MAX,
        data.subrange(q as int, (q + enc_all(vehicle_descriptor_license_plate_part(m)).len()) as int) == enc_all(vehicle_descriptor_license_plate_part(m)),
    ensures
        fold_fields(fields_at(vehicle_descriptor_license_plate_part(m), q), SpecVehicleDescriptor { id: m.id, label: m.label, ..vehicle_descriptor_default() }, vehicle_descriptor_step(data, c)) == Ok::<SpecVehicleDescriptor, ErrorKind>(
            SpecVehicleDescriptor { id: m.id, label: m.label, license_plate: m.license_plate, ..vehicle_descriptor_default() },
        ),
{
    let p2 = vehicle_descriptor_license_plate_part(m);
    let q2 = q;
    let step = vehicle_descriptor_step(data, c);
    let m2 = SpecVehicleDescriptor { id: m.id, label: m.label, ..vehicle_descriptor_default() };
    let m3 = SpecVehicleDescriptor { id: m.id, label: m.label, license_plate: m.license_plate, ..vehicle_descriptor_default() };
    reveal(vehicle_descriptor_license_plate_part);
    match m.license_plate {
        Some(x) => {
            lemma_enc_single(3u32, Enc::Bytes(encode_utf8(x)), q2);
            lemma_field_read(data, q2, q2 + enc_all(p2).len(), c, 3u32, Enc::Bytes(encode_utf8(x)));
            lemma_fold_single(field_at(3u32, Enc::Bytes(encode_utf8(x)), q2), m2, step);
            reveal(vehicle_descriptor_applied);
            encode_utf8_valid_utf8(x);
            encode_utf8_decode_utf8(x);
            assert(vehicle_descriptor_applied(data, field_at(3u32, Enc::Bytes(encode_utf8(x)), q2), m2, c) == Ok::<SpecVehicleDescriptor, ErrorKind>(m3));
        },
        None => {
                assert(p2 =~= Seq::<(u32, Enc)>::empty());
            },
    }
}

proof fn lemma_vehicle_descriptor_wheelchair_accessible_read(data: Seq<u8>, q: nat, m: SpecVehicleDescriptor, c: nat)
    requires
        vehicle_descriptor_raw_ok(m, c),
        c + 1 >= 1,
        q + enc_all(vehicle_descriptor_wheelchair_accessible_part(m)).len() <= data.len() <= usize::MAX,
        data.subrange(q as int, (q + enc_all(vehicle_descriptor_wheelchair_accessible_part(m)).len()) as int) == enc_all(vehicle_descriptor_wheelchair_accessible_part(m)),
    ensures
        fold_fields(fields_at(vehicle_descriptor_wheelchair_accessible_part(m), q), SpecVehicleDescriptor { id: m.id, label: m.label, license_plate: m.license_plate, ..vehicle_descriptor_default() }, vehicle_descriptor_step(data, c)) == Ok::<SpecVehicleDescriptor, ErrorKind>(
            SpecVehicleDescriptor { id: m.id, label: m.label, license_plate: m.license_plate, wheelchair_accessible: m.wheelchair_accessible, ..vehicle_descriptor_default() },
        ),
{
    let p3 = vehicle_descriptor_wheelchair_accessible_part(m);
    let q3 = q;
    let step = vehicle_descriptor_step(data, c);
    let m3 = SpecVehicleDescriptor { id: m.id, label: m.label, license_plate: m.license_plate, ..vehicle_descriptor_default() };
    let m4 = SpecVehicleDescriptor { id: m.id, label: m.label, license_plate: m.license_plate, wheelchair_accessible: m.wheelchair_accessible, ..vehicle_descriptor_default() };
    reveal(vehicle_descriptor_wheelchair_accessible_part);
    match m.wheelchair_accessible {
        Some(x) => {
            lemma_enc_single(4u32, Enc::Varint(x as u64), q3);
            lemma_field_read(data, q3, q3 + enc_all(p3).len(), c, 4u32, Enc::Varint(x as u64));
            lemma_fold_single(field_at(4u32, Enc::Varint(x as u64), q3), m3, step);
            reveal(vehicle_descriptor_applied);
            lemma_i32_wire(x);
            assert(vehicle_descriptor_applied(data, field_at(4u32, Enc::Varint(x as u64), q3), m3, c) == Ok::<SpecVehicleDescriptor, ErrorKind>(m4));
        },
        None => {
                assert(p3 =~= Seq::<(u32, Enc)>::empty());
            },
    }
}

proof fn lemma_vehicle_descriptor_fold(data: Seq<u8>, s: nat, m: SpecVehicleDescriptor, c: nat)
    requires
        vehicle_descriptor_raw_ok(m, c),
        c + 1 >= 1,
        s + enc_all(vehicle_descriptor_encs(m)).len() <= data.len() <= usize::MAX,
        data.subrange(s as int, (s + enc_all(vehicle_descriptor_encs(m)).len()) as int) == enc_all(vehicle_descriptor_encs(m)),
    ensures
        fold_fields(fields_at(vehicle_descriptor_encs(m), s), vehicle_descriptor_default(), vehicle_descriptor_step(data, c)) == Ok::<
            SpecVehicleDescriptor,
            ErrorKind,
        >(m),
{
    let es = vehicle_descriptor_encs(m);
    let step = vehicle_descriptor_step(data, c);
    let p0 = vehicle_descriptor_id_part(m);
    let p1 = vehicle_descriptor_label_part(m);
    let p2 = vehicle_descriptor_license_plate_part(m);
    let p3 = vehicle_descriptor_wheelchair_accessible_part(m);
    let r3 = p3;
    let r2 = p2 + r3;
    let r1 = p1 + r2;
    let r0 = p0 + r1;
    assert(es == r0);
    let m0 = vehicle_descriptor_default();
    let q0 = s;
    let m1 = SpecVehicleDescriptor { id: m.id, ..vehicle_descriptor_default() };
    let q1 = q0 + enc_all(p0).len();
    assert(fold_fields(fields_at(r0, q0), m0, step) == fold_fields(fields_at(r1, q1), m1, step)
        && q1 + enc_all(r1).len() <= data.len()
        && data.subrange(q1 as int, (q1 + enc_all(r1).len()) as int) == enc_all(r1)) by {
        lemma_enc_add(p0, r1, q0);
        lemma_subrange_split(data, q0, enc_all(p0), enc_all(r1));
        lemma_fold_add(fields_at(p0, q0), fields_at(r1, q1), m0, step);
        lemma_vehicle_descriptor_id_read(data, q0, m, c);
    }
    let m2 = SpecVehicleDescriptor { id: m.id, label: m.label, ..vehicle_descriptor_default() };
    let q2 = q1 + enc_all(p1).len();
    assert(fold_fields(fields_at(r1, q1), m1, step) == fold_fields(fields_at(r2, q2), m2, step)
        && q2 + enc_all(r2).len() <= data.len()
        && data.subrange(q2 as int, (q2 + enc_all(r2).len()) as int) == enc_all(r2)) by {
        lemma_enc_add(p1, r2, q1);
        lemma_subrange_split(data, q1, enc_all(p1), enc_all(r2));
        lemma_fold_add(fields_at(p1, q1), fields_at(r2, q2), m1, step);
        lemma_vehicle_descriptor_label_read(data, q1, m, c);
    }
    let m3 = SpecVehicleDescriptor { id: m.id, label: m.label, license_plate: m.license_plate, ..vehicle_descriptor_default() };
    let q3 = q2 + enc_all(p2).len();
    assert(fold_fields(fields_at(r2, q2), m2, step) == fold_fields(fields_at(r3, q3), m3, step)
        && q3 + enc_all(r3).len() <= data.len()
        && data.subrange(q3 as int, (q3 + enc_all(r3).len()) as int) == enc_all(r3)) by {
        lemma_enc_add(p2, r3, q2);
        lemma_subrange_split(data, q2, enc_all(p2), enc_all(r3));
        lemma_fold_add(fields_at(p2, q2), fields_at(r3, q3), m2, step);
        lemma_vehicle_descriptor_license_plate_read(data, q2, m, c);
    }
    let m4 = SpecVehicleDescriptor { id: m.id, label: m.label, license_plate: m.license_plate, wheelchair_accessible: m.wheelchair_accessible, ..vehicle_descriptor_default() };
    let q4 = q3 + enc_all(p3).len();
    lemma_vehicle_descriptor_wheelchair_accessible_read(data, q3, m, c);
    assert(m4 == m);
}

/// Decoding the bytes of a `VehicleDescriptor` gives it back.
pub proof fn lemma_vehicle_descriptor_decoded(data: Seq<u8>, s: nat, m: SpecVehicleDescriptor, ctx: nat)
    requires
        vehicle_descriptor_raw_ok(m, (ctx - 1) as nat),
        ctx >= 1,
        s + vehicle_descriptor_encoded(m).len() <= data.len() <= usize::MAX,
        data.subrange(s as int, (s + vehicle_descriptor_encoded(m).len()) as int) == vehicle_descriptor_encoded(m),
    ensures
        vehicle_descriptor_merged(data, s, s + vehicle_descriptor_encoded(m).len(), ctx, vehicle_descriptor_default()) == Ok::<
            SpecVehicleDescriptor,
            ErrorKind,
        >(m),
{
    lemma_vehicle_descriptor_encs(m);
    lemma_fields_read(data, s, vehicle_descriptor_encs(m), (ctx - 1) as nat);
    lemma_vehicle_descriptor_fold(data, s, m, (ctx - 1) as nat);
}

/// Every part of a `Alert` kept as raw bytes, at any depth, passes the
/// check that decoding gives it when the fields of the `Alert` are read
/// with budget `c`.
pub open spec fn alert_raw_ok(m: SpecAlert, c: nat) -> bool {
    (forall|i: int| 0 <= i < m.active_period.len() ==> time_range_raw_ok(#[trigger] m.active_period[i], (c - 1) as nat))
    && (forall|i: int| 0 <= i < m.informed_entity.len() ==> entity_selector_raw_ok(#[trigger] m.informed_entity[i], (c - 1) as nat))
    && (m.url matches Some(x) ==> translated_string_raw_ok(x, (c - 1) as nat))
    && (m.header_text matches Some(x) ==> translated_string_raw_ok(x, (c - 1) as nat))
    && (m.description_text matches Some(x) ==> translated_string_raw_ok(x, (c - 1) as nat))
    && (m.tts_header_text matches Some(x) ==> translated_string_raw_ok(x, (c - 1) as nat))
    && (m.tts_description_text matches Some(x) ==> translated_string_raw_ok(x, (c - 1) as nat))
    && (m.image matches Some(b) ==> raw_ok(RawKind::TranslatedImage, b, c))
    && (m.image_alternative_text matches Some(x) ==> translated_string_raw_ok(x, (c - 1) as nat))
    && (m.cause_detail matches Some(x) ==> translated_string_raw_ok(x, (c - 1) as nat))
    && (m.effect_detail matches Some(x) ==> translated_string_raw_ok(x, (c - 1) as nat))
}

/// Field `active_period` of a `Alert` as it is written.
#[verifier::opaque]
pub open spec fn alert_active_period_part(m: SpecAlert) -> Seq<(u32, Enc)> {
    bytes_items(1u32, m.active_period.map_values(time_range_encoder()))
}

/// Field `informed_entity` of a `Alert` as it is written.
#[verifier::opaque]
pub open spec fn alert_informed_entity_part(m: SpecAlert) -> Seq<(u32, Enc)> {
    bytes_items(5u32, m.informed_entity.map_values(entity_selector_encoder()))
}

/// Field `cause` of a `Alert` as it is written.
#[verifier::opaque]
pub open spec fn alert_cause_part(m: SpecAlert) -> Seq<(u32, Enc)> {
    match m.cause {
        Some(x) => seq![(6u32, Enc::Varint(x as u64))],
        None => Seq::empty(),
    }
}

/// Field `effect` of a `Alert` as it is written.
#[verifier::opaque]
pub open spec fn alert_effect_part(m: SpecAlert) -> Seq<(u32, Enc)> {
    match m.effect {
        Some(x) => seq![(7u32, Enc::Varint(x as u64))],
        None => Seq::empty(),
    }
}

/// Field `url` of a `Alert` as it is written.
#[verifier::opaque]
pub open spec fn alert_url_part(m: SpecAlert) -> Seq<(u32, Enc)> {
    match m.url {
        Some(x) => seq![(8u32, Enc::Bytes(translated_string_encoded(x)))],
        None => Seq::empty(),
    }
}

/// Field `header_text` of a `Alert` as it is written.
#[verifier::opaque]
pub open spec fn alert_header_text_part(m: SpecAlert) -> Seq<(u32, Enc)> {
    match m.header_text {
        Some(x) => seq![(10u32, Enc::Bytes(translated_string_encoded(x)))],
        None => Seq::empty(),
    }
}

/// Field `description_text` of a `Alert` as it is written.
#[verifier::opaque]
pub open spec fn alert_description_text_part(m: SpecAlert) -> Seq<(u32, Enc)> {
    match m.description_text {
        Some(x) => seq![(11u32, Enc::Bytes(translated_string_encoded(x)))],
        None => Seq::empty(),
    }
}

/// Field `tts_header_text` of a `Alert` as it is written.
#[verifier::opaque]
pub open spec fn alert_tts_header_text_part(m: SpecAlert) -> Seq<(u32, Enc)> {
    match m.tts_header_text {
        Some(x) => seq![(12u32, Enc::Bytes(translated_string_encoded(x)))],
        None => Seq::empty(),
    }
}

/// Field `tts_description_text` of a `Alert` as it is written.
#[verifier::opaque]
pub open spec fn alert_tts_description_text_part(m: SpecAlert) -> Seq<(u32, Enc)> {
    match m.tts_description_text {
        Some(x) => seq![(13u32, Enc::Bytes(translated_string_encoded(x)))],
        None => Seq::empty(),
    }
}

/// Field `severity_level` of a `Alert` as it is written.
#[verifier::opaque]
pub open spec fn alert_severity_level_part(m: SpecAlert) -> Seq<(u32, Enc)> {
    match m.severity_level {
        Some(x) => seq![(14u32, Enc::Varint(x as u64))],
        None => Seq::empty(),
    }
}

/// Field `image` of a `Alert` as it is written.
#[verifier::opaque]
pub open spec fn alert_image_part(m: SpecAlert) -> Seq<(u32, Enc)> {
    match m.image {
        Some(x) => seq![(15u32, Enc::Bytes(x))],
        None => Seq::empty(),
    }
}

/// Field `image_alternative_text` of a `Alert` as it is written.
#[verifier::opaque]
pub open spec fn alert_image_alternative_text_part(m: SpecAlert) -> Seq<(u32, Enc)> {
    match m.image_alternative_text {
        Some(x) => seq![(16u32, Enc::Bytes(translated_string_encoded(x)))],
        None => Seq::empty(),
    }
}

/// Field `cause_detail` of a `Alert` as it is written.
#[verifier::opaque]
pub open spec fn alert_cause_detail_part(m: SpecAlert) -> Seq<(u32, Enc)> {
    match m.cause_detail {
        Some(x) => seq![(17u32, Enc::Bytes(translated_string_encoded(x)))],
        None => Seq::empty(),
    }
}

/// Field `effect_detail` of a `Alert` as it is written.
#[verifier::opaque]
pub open spec fn alert_effect_detail_part(m: SpecAlert) -> Seq<(u32, Enc)> {
    match m.effect_detail {
        Some(x) => seq![(18u32, Enc::Bytes(translated_string_encoded(x)))],
        None => Seq::empty(),
    }
}

/// The fields of a `Alert` as they are written.
pub open spec fn alert_encs(m: SpecAlert) -> Seq<(u32, Enc)> {
    alert_active_period_part(m) + (alert_informed_entity_part(m) + (alert_cause_part(m) + (alert_effect_part(m) + (alert_url_part(m) + (alert_header_text_part(m) + (alert_description_text_part(m) + (alert_tts_header_text_part(m) + (alert_tts_description_text_part(m) + (alert_severity_level_part(m) + (alert_image_part(m) + (alert_image_alternative_text_part(m) + (alert_cause_detail_part(m) + (alert_effect_detail_part(m))))))))))))))
}

#[verifier::rlimit(100)]
proof fn lemma_alert_encs(m: SpecAlert)
    ensures
        alert_encoded(m) == enc_all(alert_encs(m)),
        tags_ok(alert_encs(m)),
{
    reveal(alert_encoded);
    let p0 = alert_active_period_part(m);
    let b0 = repeated_bytes_field(1, m.active_period.map_values(time_range_encoder()));
    assert(enc_all(p0) == b0 && tags_ok(p0)) by {
        reveal(alert_active_period_part);
        lemma_bytes_items(1u32, m.active_period.map_values(time_range_encoder()));
    }
    let p1 = alert_informed_entity_part(m);
    let b1 = repeated_bytes_field(5, m.informed_entity.map_values(entity_selector_encoder()));
    assert(enc_all(p1) == b1 && tags_ok(p1)) by {
        reveal(alert_informed_entity_part);
        lemma_bytes_items(5u32, m.informed_entity.map_values(entity_selector_encoder()));
    }
    let p2 = alert_cause_part(m);
    let b2 = opt_varint_field(
            6,
            match m.cause {
                Some(v) => Some(v as u64),
                None => None,
            },
        );
    assert(enc_all(p2) == b2 && tags_ok(p2)) by {
        reveal(alert_cause_part);
        match m.cause {
            Some(x) => {
                lemma_enc_single(6u32, Enc::Varint(x as u64), 0);
                assert(enc_all(p2) =~= b2);
            },
            None => {
                assert(enc_all(p2) =~= b2);
            },
        }
    }
    let p3 = alert_effect_part(m);
    let b3 = opt_varint_field(
            7,
            match m.effect {
                Some(v) => Some(v as u64),
                None => None,
            },
        );
    assert(enc_all(p3) == b3 && tags_ok(p3)) by {
        reveal(alert_effect_part);
        match m.effect {
            Some(x) => {
                lemma_enc_single(7u32, Enc::Varint(x as u64), 0);
                assert(enc_all(p3) =~= b3);
            },
            None => {
                assert(enc_all(p3) =~= b3);
            },
        }
    }
    let p4 = alert_url_part(m);
    let b4 = opt_bytes_field(
            8,
            match m.url {
                Some(x) => Some(translated_string_encoded(x)),
                None => None,
            },
        );
    assert(enc_all(p4) == b4 && tags_ok(p4)) by {
        reveal(alert_url_part);
        match m.url {
            Some(x) => {
                lemma_enc_single(8u32, Enc::Bytes(translated_string_encoded(x)), 0);
                assert(enc_all(p4) =~= b4);
            },
            None => {
                assert(enc_all(p4) =~= b4);
            },
        }
    }
    let p5 = alert_header_text_part(m);
    let b5 = opt_bytes_field(
            10,
            match m.header_text {
                Some(x) => Some(translated_string_encoded(x)),
                None => None,
            },
        );
    assert(enc_all(p5) == b5 && tags_ok(p5)) by {
        reveal(alert_header_text_part);
        match m.header_text {
            Some(x) => {
                lemma_enc_single(10u32, Enc::Bytes(translated_string_encoded(x)), 0);
                assert(enc_all(p5) =~= b5);
            },
            None => {
                assert(enc_all(p5) =~= b5);
            },
        }
    }
    let p6 = alert_description_text_part(m);
    let b6 = opt_bytes_field(
            11,
            match m.description_text {
                Some(x) => Some(translated_string_encoded(x)),
                None => None,
            },
        );
    assert(enc_all(p6) == b6 && tags_ok(p6)) by {
        reveal(alert_description_text_part);
        match m.description_text {
            Some(x) => {
                lemma_enc_single(11u32, Enc::Bytes(translated_string_encoded(x)), 0);
                assert(enc_all(p6) =~= b6);
            },
            None => {
                assert(enc_all(p6) =~= b6);
            },
        }
    }
    let p7 = alert_tts_header_text_part(m);
    let b7 = opt_bytes_field(
            12,
            match m.tts_header_text {
                Some(x) => Some(translated_string_encoded(x)),
                None => None,
            },
        );
    assert(enc_all(p7) == b7 && tags_ok(p7)) by {
        reveal(alert_tts_header_text_part);
        match m.tts_header_text {
            Some(x) => {
                lemma_enc_single(12u32, Enc::Bytes(translated_string_encoded(x)), 0);
                assert(enc_all(p7) =~= b7);
            },
            None => {
                assert(enc_all(p7) =~= b7);
            },
        }
    }
    let p8 = alert_tts_description_text_part(m);
    let b8 = opt_bytes_field(
            13,
            match m.tts_description_text {
                Some(x) => Some(translated_string_encoded(x)),
                None => None,
            },
        );
    assert(enc_all(p8) == b8 && tags_ok(p8)) by {
        reveal(alert_tts_description_text_part);
        match m.tts_description_text {
            Some(x) => {
                lemma_enc_single(13u32, Enc::Bytes(translated_string_encoded(x)), 0);
                assert(enc_all(p8) =~= b8);
            },
            None => {
                assert(enc_all(p8) =~= b8);
            },
        }
    }
    let p9 = alert_severity_level_part(m);
    let b9 = opt_varint_field(
            14,
            match m.severity_level {
                Some(v) => Some(v as u64),
                None => None,
            },
        );
    assert(enc_all(p9) == b9 && tags_ok(p9)) by {
        reveal(alert_severity_level_part);
        match m.severity_level {
            Some(x) => {
                lemma_enc_single(14u32, Enc::Varint(x as u64), 0);
                assert(enc_all(p9) =~= b9);
            },
            None => {
                assert(enc_all(p9) =~= b9);
            },
        }
    }
    let p10 = alert_image_part(m);
    let b10 = opt_bytes_field(15, m.image);
    assert(enc_all(p10) == b10 && tags_ok(p10)) by {
        reveal(alert_image_part);
        match m.image {
            Some(x) => {
                lemma_enc_single(15u32, Enc::Bytes(x), 0);
                assert(enc_all(p10) =~= b10);
            },
            None => {
                assert(enc_all(p10) =~= b10);
            },
        }
    }
    let p11 = alert_image_alternative_text_part(m);
    let b11 = opt_bytes_field(
            16,
            match m.image_alternative_text {
                Some(x) => Some(translated_string_encoded(x)),
                None => None,
            },
        );
    assert(enc_all(p11) == b11 && tags_ok(p11)) by {
        reveal(alert_image_alternative_text_part);
        match m.image_alternative_text {
            Some(x) => {
                lemma_enc_single(16u32, Enc::Bytes(translated_string_encoded(x)), 0);
                assert(enc_all(p11) =~= b11);
            },
            None => {
                assert(enc_all(p11) =~= b11);
            },
        }
    }
    let p12 = alert_cause_detail_part(m);
    let b12 = opt_bytes_field(
            17,
            match m.cause_detail {
                Some(x) => Some(translated_string_encoded(x)),
                None => None,
            },
        );
    assert(enc_all(p12) == b12 && tags_ok(p12)) by {
        reveal(alert_cause_detail_part);
        match m.cause_detail {
            Some(x) => {
                lemma_enc_single(17u32, Enc::Bytes(translated_string_encoded(x)), 0);
                assert(enc_all(p12) =~= b12);
            },
            None => {
                assert(enc_all(p12) =~= b12);
            },
        }
    }
    let p13 = alert_effect_detail_part(m);
    let b13 = opt_bytes_field(
            18,
            match m.effect_detail {
                Some(x) => Some(translated_string_encoded(x)),
                None => None,
            },
        );
    assert(enc_all(p13) == b13 && tags_ok(p13)) by {
        reveal(alert_effect_detail_part);
        match m.effect_detail {
            Some(x) => {
                lemma_enc_single(18u32, Enc::Bytes(translated_string_encoded(x)), 0);
                assert(enc_all(p13) =~= b13);
            },
            None => {
                assert(enc_all(p13) =~= b13);
            },
        }
    }
    let r13 = p13;
    let s13 = b13;
    let r12 = p12 + r13;
    let s12 = b12 + s13;
    lemma_enc_add(p12, r13, 0);
    let r11 = p11 + r12;
    let s11 = b11 + s12;
    lemma_enc_add(p11, r12, 0);
    let r10 = p10 + r11;
    let s10 = b10 + s11;
    lemma_enc_add(p10, r11, 0);
    let r9 = p9 + r10;
    let s9 = b9 + s10;
    lemma_enc_add(p9, r10, 0);
    let r8 = p8 + r9;
    let s8 = b8 + s9;
    lemma_enc_add(p8, r9, 0);
    let r7 = p7 + r8;
    let s7 = b7 + s8;
    lemma_enc_add(p7, r8, 0);
    let r6 = p6 + r7;
    let s6 = b6 + s7;
    lemma_enc_add(p6, r7, 0);
    let r5 = p5 + r6;
    let s5 = b5 + s6;
    lemma_enc_add(p5, r6, 0);
    let r4 = p4 + r5;
    let s4 = b4 + s5;
    lemma_enc_add(p4, r5, 0);
    let r3 = p3 + r4;
    let s3 = b3 + s4;
    lemma_enc_add(p3, r4, 0);
    let r2 = p2 + r3;
    let s2 = b2 + s3;
    lemma_enc_add(p2, r3, 0);
    let r1 = p1 + r2;
    let s1 = b1 + s2;
    lemma_enc_add(p1, r2, 0);
    let r0 = p0 + r1;
    let s0 = b0 + s1;
    lemma_enc_add(p0, r1, 0);
    let l0 = b0;
    let l1 = l0 + b1;
    let l2 = l1 + b2;
    let l3 = l2 + b3;
    let l4 = l3 + b4;
    let l5 = l4 + b5;
    let l6 = l5 + b6;
    let l7 = l6 + b7;
    let l8 = l7 + b8;
    let l9 = l8 + b9;
    let l10 = l9 + b10;
    let l11 = l10 + b11;
    let l12 = l11 + b12;
    let l13 = l12 + b13;
    assert(l0 + s1 == s0);
    lemma_add_assoc(l0, b1, s2);
    assert(l1 + s2 == s0);
    lemma_add_assoc(l1, b2, s3);
    assert(l2 + s3 == s0);
    lemma_add_assoc(l2, b3, s4);
    assert(l3 + s4 == s0);
    lemma_add_assoc(l3, b4, s5);
    assert(l4 + s5 == s0);
    lemma_add_assoc(l4, b5, s6);
    assert(l5 + s6 == s0);
    lemma_add_assoc(l5, b6, s7);
    assert(l6 + s7 == s0);
    lemma_add_assoc(l6, b7, s8);
    assert(l7 + s8 == s0);
    lemma_add_assoc(l7, b8, s9);
    assert(l8 + s9 == s0);
    lemma_add_assoc(l8, b9, s10);
    assert(l9 + s10 == s0);
    lemma_add_assoc(l9, b10, s11);
    assert(l10 + s11 == s0);
    lemma_add_assoc(l10, b11, s12);
    assert(l11 + s12 == s0);
    lemma_add_assoc(l11, b12, s13);
    assert(l12 + s13 == s0);
    assert(alert_encoded(m) == l13);
    assert(alert_encs(m) == r0);
}

proof fn lemma_alert_active_period_items(data: Seq<u8>, q: nat, items: Seq<SpecTimeRange>, mp: SpecAlert, c: nat)
    requires
        forall|i: int| 0 <= i < items.len() ==> time_range_raw_ok(#[trigger] items[i], (c - 1) as nat),
        c >= 1,
        q + enc_all(bytes_items(1u32, items.map_values(time_range_encoder()))).len() <= data.len() <= usize::MAX,
        data.subrange(q as int, (q + enc_all(bytes_items(1u32, items.map_values(time_range_encoder()))).len()) as int) == enc_all(bytes_items(1u32, items.map_values(time_range_encoder()))),
    ensures
        fold_fields(fields_at(bytes_items(1u32, items.map_values(time_range_encoder())), q), mp, alert_step(data, c)) == Ok::<SpecAlert, ErrorKind>(
            SpecAlert { active_period: mp.active_period + items, ..mp },
        ),
    decreases items.len(),
{
    let bs = items.map_values(time_range_encoder());
    let es = bytes_items(1u32, bs);
    if items.len() == 0 {
        assert(es =~= Seq::<(u32, Enc)>::empty());
        assert(mp.active_period + items =~= mp.active_period);
    } else {
        lemma_bytes_items(1u32, bs);
        let head = seq![(1u32, Enc::Bytes(bs[0]))];
        let rest_items = items.drop_first();
        assert(bs.drop_first() =~= rest_items.map_values(time_range_encoder()));
        let rest = bytes_items(1u32, rest_items.map_values(time_range_encoder()));
        lemma_enc_add(head, rest, q);
        lemma_enc_single(1u32, Enc::Bytes(bs[0]), q);
        lemma_subrange_split(data, q, enc_all(head), enc_all(rest));
        lemma_field_read(data, q, q + enc_all(head).len(), c, 1u32, Enc::Bytes(bs[0]));
        let fd = field_at(1u32, Enc::Bytes(bs[0]), q);
        lemma_fold_add(seq![fd], fields_at(rest, q + enc_all(head).len()), mp, alert_step(data, c));
        lemma_fold_single(fd, mp, alert_step(data, c));
        reveal(alert_applied);
        let a = q + key_bytes(1nat, 2).len() + varint_bytes(bs[0].len()).len();
        lemma_time_range_decoded(data, a, items[0], c);
        let m1 = SpecAlert { active_period: mp.active_period.push(items[0]), ..mp };
        assert(alert_applied(data, fd, mp, c) == Ok::<SpecAlert, ErrorKind>(m1));
        lemma_alert_active_period_items(data, q + enc_all(head).len(), rest_items, m1, c);
        assert(m1.active_period + rest_items =~= mp.active_period + items);
    }
}

proof fn lemma_alert_informed_entity_items(data: Seq<u8>, q: nat, items: Seq<SpecEntitySelector>, mp: SpecAlert, c: nat)
    requires
        forall|i: int| 0 <= i < items.len() ==> entity_selector_raw_ok(#[trigger] items[i], (c - 1) as nat),
        c >= 3,
        q + enc_all(bytes_items(5u32, items.map_values(entity_selector_encoder()))).len() <= data.len() <= usize::MAX,
        data.subrange(q as int, (q + enc_all(bytes_items(5u32, items.map_values(entity_selector_encoder()))).len()) as int) == enc_all(bytes_items(5u32, items.map_values(entity_selector_encoder()))),
    ensures
        fold_fields(fields_at(bytes_items(5u32, items.map_values(entity_selector_encoder())), q), mp, alert_step(data, c)) == Ok::<SpecAlert, ErrorKind>(
            SpecAlert { informed_entity: mp.informed_entity + items, ..mp },
        ),
    decreases items.len(),
{
    let bs = items.map_values(entity_selector_encoder());
    let es = bytes_items(5u32, bs);
    if items.len() == 0 {
        assert(es =~= Seq::<(u32, Enc)>::empty());
        assert(mp.informed_entity + items =~= mp.informed_entity);
    } else {
        lemma_bytes_items(5u32, bs);
        let head = seq![(5u32, Enc::Bytes(bs[0]))];
        let rest_items = items.drop_first();
        assert(bs.drop_first() =~= rest_items.map_values(entity_selector_encoder()));
        let rest = bytes_items(5u32, rest_items.map_values(entity_selector_encoder()));
        lemma_enc_add(head, rest, q);
        lemma_enc_single(5u32, Enc::Bytes(bs[0]), q);
        lemma_subrange_split(data, q, enc_all(head), enc_all(rest));
        lemma_field_read(data, q, q + enc_all(head).len(), c, 5u32, Enc::Bytes(bs[0]));
        let fd = field_at(5u32, Enc::Bytes(bs[0]), q);
        lemma_fold_add(seq![fd], fields_at(rest, q + enc_all(head).len()), mp, alert_step(data, c));
        lemma_fold_single(fd, mp, alert_step(data, c));
        reveal(alert_applied);
        let a = q + key_bytes(5nat, 2).len() + varint_bytes(bs[0].len()).len();
        lemma_entity_selector_decoded(data, a, items[0], c);
        let m1 = SpecAlert { informed_entity: mp.informed_entity.push(items[0]), ..mp };
        assert(alert_applied(data, fd, mp, c) == Ok::<SpecAlert, ErrorKind>(m1));
        lemma_alert_informed_entity_items(data, q + enc_all(head).len(), rest_items, m1, c);
        assert(m1.informed_entity + rest_items =~= mp.informed_entity + items);
    }
}

proof fn lemma_alert_active_period_read(data: Seq<u8>, q: nat, m: SpecAlert, c: nat)
    requires
        alert_raw_ok(m, c),
        c + 1 >= 4,
        q + enc_all(alert_active_period_part(m)).len() <= data.len() <= usize::MAX,
        data.subrange(q as int, (q + enc_all(alert_active_period_part(m)).len()) as int) == enc_all(alert_active_period_part(m)),
    ensures
        fold_fields(fields_at(alert_active_period_part(m), q), alert_default(), alert_step(data, c)) == Ok::<SpecAlert, ErrorKind>(
            SpecAlert { active_period: m.active_period, ..alert_default() },
        ),
{
    let p0 = alert_active_period_part(m);
    let q0 = q;
    let step = alert_step(data, c);
    let m0 = alert_default();
    let m1 = SpecAlert { active_period: m.active_period, ..alert_default() };
    reveal(alert_active_period_part);
    lemma_alert_active_period_items(data, q0, m.active_period, m0, c);
    assert(m0.active_period + m.active_period =~= m.active_period);
}

proof fn lemma_alert_informed_entity_read(data: Seq<u8>, q: nat, m: SpecAlert, c: nat)
    requires
        alert_raw_ok(m, c),
        c + 1 >= 4,
        q + enc_all(alert_informed_entity_part(m)).len() <= data.len() <= usize::MAX,
        data.subrange(q as int, (q + enc_all(alert_informed_entity_part(m)).len()) as int) == enc_all(alert_informed_entity_part(m)),
    ensures
        fold_fields(fields_at(alert_informed_entity_part(m), q), SpecAlert { active_period: m.active_period, ..alert_default() }, alert_step(data, c)) == Ok::<SpecAlert, ErrorKind>(
            SpecAlert { active_period: m.active_period, informed_entity: m.informed_entity, ..alert_default() },
        ),
{
    let p1 = alert_informed_entity_part(m);
    let q1 = q;
    let step = alert_step(data, c);
    let m1 = SpecAlert { active_period: m.active_period, ..alert_default() };
    let m2 = SpecAlert { active_period: m.active_period, informed_entity: m.informed_entity, ..alert_default() };
    reveal(alert_informed_entity_part);
    lemma_alert_informed_entity_items(data, q1, m.informed_entity, m1, c);
    assert(m1.informed_entity + m.informed_entity =~= m.informed_entity);
}

proof fn lemma_alert_cause_read(data: Seq<u8>, q: nat, m: SpecAlert, c: nat)
    requires
        alert_raw_ok(m, c),
        c + 1 >= 4,
        q + enc_all(alert_cause_part(m)).len() <= data.len() <= usize::MAX,
        data.subrange(q as int, (q + enc_all(alert_cause_part(m)).len()) as int) == enc_all(alert_cause_part(m)),
    ensures
        fold_fields(fields_at(alert_cause_part(m), q), SpecAlert { active_period: m.active_period, informed_entity: m.informed_entity, ..alert_default() }, alert_step(data, c)) == Ok::<SpecAlert, ErrorKind>(
            SpecAlert { active_period: m.active_period, informed_entity: m.informed_entity, cause: m.cause, ..alert_default() },
        ),
{
    let p2 = alert_cause_part(m);
    let q2 = q;
    let step = alert_step(data, c);
    let m2 = SpecAlert { active_period: m.active_period, informed_entity: m.informed_entity, ..alert_default() };
    let m3 = SpecAlert { active_period: m.active_period, informed_entity: m.informed_entity, cause: m.cause, ..alert_default() };
    reveal(alert_cause_part);
    match m.cause {
        Some(x) => {
            lemma_enc_single(6u32, Enc::Varint(x as u64), q2);
            lemma_field_read(data, q2, q2 + enc_all(p2).len(), c, 6u32, Enc::Varint(x as u64));
            lemma_fold_single(field_at(6u32, Enc::Varint(x as u64), q2), m2, step);
            reveal(alert_applied);
            lemma_i32_wire(x);
            assert(alert_applied(data, field_at(6u32, Enc::Varint(x as u64), q2), m2, c) == Ok::<SpecAlert, ErrorKind>(m3));
        },
        None => {
                assert(p2 =~= Seq::<(u32, Enc)>::empty());
            },
    }
}

proof fn lemma_alert_effect_read(data: Seq<u8>, q: nat, m: SpecAlert, c: nat)
    requires
        alert_raw_ok(m, c),
        c + 1 >= 4,
        q + enc_all(alert_effect_part(m)).len() <= data.len() <= usize::MAX,
        data.subrange(q as int, (q + enc_all(alert_effect_part(m)).len()) as int) == enc_all(alert_effect_part(m)),
    ensures
        fold_fields(fields_at(alert_effect_part(m), q), SpecAlert { active_period: m.active_period, informed_entity: m.informed_entity, cause: m.cause, ..alert_default() }, alert_step(data, c)) == Ok::<SpecAlert, ErrorKind>(
            SpecAlert { active_period: m.active_period, informed_entity: m.informed_entity, cause: m.cause, effect: m.effect, ..alert_default() },
        ),
{
    let p3 = alert_effect_part(m);
    let q3 = q;
    let step = alert_step(data, c);
    let m3 = SpecAlert { active_period: m.active_period, informed_entity: m.informed_entity, cause: m.cause, ..alert_default() };
    let m4 = SpecAlert { active_period: m.active_period, informed_entity: m.informed_entity, cause: m.cause, effect: m.effect, ..alert_default() };
    reveal(alert_effect_part);
    match m.effect {
        Some(x) => {
            lemma_enc_single(7u32, Enc::Varint(x as u64), q3);
            lemma_field_read(data, q3, q3 + enc_all(p3).len(), c, 7u32, Enc::Varint(x as u64));
            lemma_fold_single(field_at(7u32, Enc::Varint(x as u64), q3), m3, step);
            reveal(alert_applied);
            lemma_i32_wire(x);
            assert(alert_applied(data, field_at(7u32, Enc::Varint(x as u64), q3), m3, c) == Ok::<SpecAlert, ErrorKind>(m4));
        },
        None => {
                assert(p3 =~= Seq::<(u32, Enc)>::empty());
            },
    }
}

proof fn lemma_alert_url_read(data: Seq<u8>, q: nat, m: SpecAlert, c: nat)
    requires
        alert_raw_ok(m, c),
        c + 1 >= 4,
        q + enc_all(alert_url_part(m)).len() <= data.len() <= usize::MAX,
        data.subrange(q as int, (q + enc_all(alert_url_part(m)).len()) as int) == enc_all(alert_url_part(m)),
    ensures
        fold_fields(fields_at(alert_url_part(m), q), SpecAlert { active_period: m.active_period, informed_entity: m.informed_entity, cause: m.cause, effect: m.effect, ..alert_default() }, alert_step(data, c)) == Ok::<SpecAlert, ErrorKind>(
            SpecAlert { active_period: m.active_period, informed_entity: m.informed_entity, cause: m.cause, effect: m.effect, url: m.url, ..alert_default() },
        ),
{
    let p4 = alert_url_part(m);
    let q4 = q;
    let step = alert_step(data, c);
    let m4 = SpecAlert { active_period: m.active_period, informed_entity: m.informed_entity, cause: m.cause, effect: m.effect, ..alert_default() };
    let m5 = SpecAlert { active_period: m.active_period, informed_entity: m.informed_entity, cause: m.cause, effect: m.effect, url: m.url, ..alert_default() };
    reveal(alert_url_part);
    match m.url {
        Some(x) => {
            lemma_enc_single(8u32, Enc::Bytes(translated_string_encoded(x)), q4);
            lemma_field_read(data, q4, q4 + enc_all(p4).len(), c, 8u32, Enc::Bytes(translated_string_encoded(x)));
            lemma_fold_single(field_at(8u32, Enc::Bytes(translated_string_encoded(x)), q4), m4, step);
            reveal(alert_applied);
            let a = q4 + key_bytes(8nat, 2).len() + varint_bytes(translated_string_encoded(x).len()).len();
            lemma_translated_string_decoded(data, a, x, c);
            assert(alert_applied(data, field_at(8u32, Enc::Bytes(translated_string_encoded(x)), q4), m4, c) == Ok::<SpecAlert, ErrorKind>(m5));
        },
        None => {
                assert(p4 =~= Seq::<(u32, Enc)>::empty());
            },
    }
}

proof fn lemma_alert_header_text_read(data: Seq<u8>, q: nat, m: SpecAlert, c: nat)
    requires
        alert_raw_ok(m, c),
        c + 1 >= 4,
        q + enc_all(alert_header_text_part(m)).len() <= data.len() <= usize::MAX,
        data.subrange(q as int, (q + enc_all(alert_header_text_part(m)).len()) as int) == enc_all(alert_header_text_part(m)),
    ensures
        fold_fields(fields_at(alert_header_text_part(m), q), SpecAlert { active_period: m.active_period, informed_entity: m.informed_entity, cause: m.cause, effect: m.effect, url: m.url, ..alert_default() }, alert_step(data, c)) == Ok::<SpecAlert, ErrorKind>(
            SpecAlert { active_period: m.active_period, informed_entity: m.informed_entity, cause: m.cause, effect: m.effect, url: m.url, header_text: m.header_text, ..alert_default() },
        ),
{
    let p5 = alert_header_text_part(m);
    let q5 = q;
    let step = alert_step(data, c);
    let m5 = SpecAlert { active_period: m.active_period, informed_entity: m.informed_entity, cause: m.cause, effect: m.effect, url: m.url, ..alert_default() };
    let m6 = SpecAlert { active_period: m.active_period, informed_entity: m.informed_entity, cause: m.cause, effect: m.effect, url: m.url, header_text: m.header_text, ..alert_default() };
    reveal(alert_header_text_part);
    match m.header_text {
        Some(x) => {
            lemma_enc_single(10u32, Enc::Bytes(translated_string_encoded(x)), q5);
            lemma_field_read(data, q5, q5 + enc_all(p5).len(), c, 10u32, Enc::Bytes(translated_string_encoded(x)));
            lemma_fold_single(field_at(10u32, Enc::Bytes(translated_string_encoded(x)), q5), m5, step);
            reveal(alert_applied);
            let a = q5 + key_bytes(10nat, 2).len() + varint_bytes(translated_string_encoded(x).len()).len();
            lemma_translated_string_decoded(data, a, x, c);
            assert(alert_applied(data, field_at(10u32, Enc::Bytes(translated_string_encoded(x)), q5), m5, c) == Ok::<SpecAlert, ErrorKind>(m6));
        },
        None => {
                assert(p5 =~= Seq::<(u32, Enc)>::empty());
            },
    }
}

proof fn lemma_alert_description_text_read(data: Seq<u8>, q: nat, m: SpecAlert, c: nat)
    requires
        alert_raw_ok(m, c),
        c + 1 >= 4,
        q + enc_all(alert_description_text_part(m)).len() <= data.len() <= usize::MAX,
        data.subrange(q as int, (q + enc_all(alert_description_text_part(m)).len()) as int) == enc_all(alert_description_text_part(m)),
    ensures
        fold_fields(fields_at(alert_description_text_part(m), q), SpecAlert { active_period: m.active_period, informed_entity: m.informed_entity, cause: m.cause, effect: m.effect, url: m.url, header_text: m.header_text, ..alert_default() }, alert_step(data, c)) == Ok::<SpecAlert, ErrorKind>(
            SpecAlert { active_period: m.active_period, informed_entity: m.informed_entity, cause: m.cause, effect: m.effect, url: m.url, header_text: m.header_text, description_text: m.description_text, ..alert_default() },
        ),
{
    let p6 = alert_description_text_part(m);
    let q6 = q;
    let step = alert_step(data, c);
    let m6 = SpecAlert { active_period: m.active_period, informed_entity: m.informed_entity, cause: m.cause, effect: m.effect, url: m.url, header_text: m.header_text, ..alert_default() };
    let m7 = SpecAlert { active_period: m.active_period, informed_entity: m.informed_entity, cause: m.cause, effect: m.effect, url: m.url, header_text: m.header_text, description_text: m.description_text, ..alert_default() };
    reveal(alert_description_text_part);
    match m.description_text {
        Some(x) => {
            lemma_enc_single(11u32, Enc::Bytes(translated_string_encoded(x)), q6);
            lemma_field_read(data, q6, q6 + enc_all(p6).len(), c, 11u32, Enc::Bytes(translated_string_encoded(x)));
            lemma_fold_single(field_at(11u32, Enc::Bytes(translated_string_encoded(x)), q6), m6, step);
            reveal(alert_applied);
            let a = q6 + key_bytes(11nat, 2).len() + varint_bytes(translated_string_encoded(x).len()).len();
            lemma_translated_string_decoded(data, a, x, c);
            assert(alert_applied(data, field_at(11u32, Enc::Bytes(translated_string_encoded(x)), q6), m6, c) == Ok::<SpecAlert, ErrorKind>(m7));
        },
        None => {
                assert(p6 =~= Seq::<(u32, Enc)>::empty());
            },
    }
}

proof fn lemma_alert_tts_header_text_read(data: Seq<u8>, q: nat, m: SpecAlert, c: nat)
    requires
        alert_raw_ok(m, c),
        c + 1 >= 4,
        q + enc_all(alert_tts_header_text_part(m)).len() <= data.len() <= usize::MAX,
        data.subrange(q as int, (q + enc_all(alert_tts_header_text_part(m)).len()) as int) == enc_all(alert_tts_header_text_part(m)),
    ensures
        fold_fields(fields_at(alert_tts_header_text_part(m), q), SpecAlert { active_period: m.active_period, informed_entity: m.informed_entity, cause: m.cause, effect: m.effect, url: m.url, header_text: m.header_text, description_text: m.description_text, ..alert_default() }, alert_step(data, c)) == Ok::<SpecAlert, ErrorKind>(
            SpecAlert { active_period: m.active_period, informed_entity: m.informed_entity, cause: m.cause, effect: m.effect, url: m.url, header_text: m.header_text, description_text: m.description_text, tts_header_text: m.tts_header_text, ..alert_default() },
        ),
{
    let p7 = alert_tts_header_text_part(m);
    let q7 = q;
    let step = alert_step(data, c);
    let m7 = SpecAlert { active_period: m.active_period, informed_entity: m.informed_entity, cause: m.cause, effect: m.effect, url: m.url, header_text: m.header_text, description_text: m.description_text, ..alert_default() };
    let m8 = SpecAlert { active_period: m.active_period, informed_entity: m.informed_entity, cause: m.cause, effect: m.effect, url: m.url, header_text: m.header_text, description_text: m.description_text, tts_header_text: m.tts_header_text, ..alert_default() };
    reveal(alert_tts_header_text_part);
    match m.tts_header_text {
        Some(x) => {
            lemma_enc_single(12u32, Enc::Bytes(translated_string_encoded(x)), q7);
            lemma_field_read(data, q7, q7 + enc_all(p7).len(), c, 12u32, Enc::Bytes(translated_string_encoded(x)));
            lemma_fold_single(field_at(12u32, Enc::Bytes(translated_string_encoded(x)), q7), m7, step);
            reveal(alert_applied);
            let a = q7 + key_bytes(12nat, 2).len() + varint_bytes(translated_string_encoded(x).len()).len();
            lemma_translated_string_decoded(data, a, x, c);
            assert(alert_applied(data, field_at(12u32, Enc::Bytes(translated_string_encoded(x)), q7), m7, c) == Ok::<SpecAlert, ErrorKind>(m8));
        },
        None => {
                assert(p7 =~= Seq::<(u32, Enc)>::empty());
            },
    }
}

proof fn lemma_alert_tts_description_text_read(data: Seq<u8>, q: nat, m: SpecAlert, c: nat)
    requires
        alert_raw_ok(m, c),
        c + 1 >= 4,
        q + enc_all(alert_tts_description_text_part(m)).len() <= data.len() <= usize::MAX,
        data.subrange(q as int, (q + enc_all(alert_tts_description_text_part(m)).len()) as int) == enc_all(alert_tts_description_text_part(m)),
    ensures
        fold_fields(fields_at(alert_tts_description_text_part(m), q), SpecAlert { active_period: m.active_period, informed_entity: m.informed_entity, cause: m.cause, effect: m.effect, url: m.url, header_text: m.header_text, description_text: m.description_text, tts_header_text: m.tts_header_text, ..alert_default() }, alert_step(data, c)) == Ok::<SpecAlert, ErrorKind>(
            SpecAlert { active_period: m.active_period, informed_entity: m.informed_entity, cause: m.cause, effect: m.effect, url: m.url, header_text: m.header_text, description_text: m.description_text, tts_header_text: m.tts_header_text, tts_description_text: m.tts_description_text, ..alert_default() },
        ),
{
    let p8 = alert_tts_description_text_part(m);
    let q8 = q;
    let step = alert_step(data, c);
    let m8 = SpecAlert { active_period: m.active_period, informed_entity: m.informed_entity, cause: m.cause, effect: m.effect, url: m.url, header_text: m.header_text, description_text: m.description_text, tts_header_text: m.tts_header_text, ..alert_default() };
    let m9 = SpecAlert { active_period: m.active_period, informed_entity: m.informed_entity, cause: m.cause, effect: m.effect, url: m.url, header_text: m.header_text, description_text: m.description_text, tts_header_text: m.tts_header_text, tts_description_text: m.tts_description_text, ..alert_default() };
    reveal(alert_tts_description_text_part);
    match m.tts_description_text {
        Some(x) => {
            lemma_enc_single(13u32, Enc::Bytes(translated_string_encoded(x)), q8);
            lemma_field_read(data, q8, q8 + enc_all(p8).len(), c, 13u32, Enc::Bytes(translated_string_encoded(x)));
            lemma_fold_single(field_at(13u32, Enc::Bytes(translated_string_encoded(x)), q8), m8, step);
            reveal(alert_applied);
            let a = q8 + key_bytes(13nat, 2).len() + varint_bytes(translated_string_encoded(x).len()).len();
            lemma_translated_string_decoded(data, a, x, c);
            assert(alert_applied(data, field_at(13u32, Enc::Bytes(translated_string_encoded(x)), q8), m8, c) == Ok::<SpecAlert, ErrorKind>(m9));
        },
        None => {
                assert(p8 =~= Seq::<(u32, Enc)>::empty());
            },
    }
}

proof fn lemma_alert_severity_level_read(data: Seq<u8>, q: nat, m: SpecAlert, c: nat)
    requires
        alert_raw_ok(m, c),
        c + 1 >= 4,
        q + enc_all(alert_severity_level_part(m)).len() <= data.len() <= usize::MAX,
        data.subrange(q as int, (q + enc_all(alert_severity_level_part(m)).len()) as int) == enc_all(alert_severity_level_part(m)),
    ensures
        fold_fields(fields_at(alert_severity_level_part(m), q), SpecAlert { active_period: m.active_period, informed_entity: m.informed_entity, cause: m.cause, effect: m.effect, url: m.url, header_text: m.header_text, description_text: m.description_text, tts_header_text: m.tts_header_text, tts_description_text: m.tts_description_text, ..alert_default() }, alert_step(data, c)) == Ok::<SpecAlert, ErrorKind>(
            SpecAlert { active_period: m.active_period, informed_entity: m.informed_entity, cause: m.cause, effect: m.effect, url: m.url, header_text: m.header_text, description_text: m.description_text, tts_header_text: m.tts_header_text, tts_description_text: m.tts_description_text, severity_level: m.severity_level, ..alert_default() },
        ),
{
    let p9 = alert_severity_level_part(m);
    let q9 = q;
    let step = alert_step(data, c);
    let m9 = SpecAlert { active_period: m.active_period, informed_entity: m.informed_entity, cause: m.cause, effect: m.effect, url: m.url, header_text: m.header_text, description_text: m.description_text, tts_header_text: m.tts_header_text, tts_description_text: m.tts_description_text, ..alert_default() };
    let m10 = SpecAlert { active_period: m.active_period, informed_entity: m.informed_entity, cause: m.cause, effect: m.effect, url: m.url, header_text: m.header_text, description_text: m.description_text, tts_header_text: m.tts_header_text, tts_description_text: m.tts_description_text, severity_level: m.severity_level, ..alert_default() };
    reveal(alert_severity_level_part);
    match m.severity_level {
        Some(x) => {
            lemma_enc_single(14u32, Enc::Varint(x as u64), q9);
            lemma_field_read(data, q9, q9 + enc_all(p9).len(), c, 14u32, Enc::Varint(x as u64));
            lemma_fold_single(field_at(14u32, Enc::Varint(x as u64), q9), m9, step);
            reveal(alert_applied);
            lemma_i32_wire(x);
            assert(alert_applied(data, field_at(14u32, Enc::Varint(x as u64), q9), m9, c) == Ok::<SpecAlert, ErrorKind>(m10));
        },
        None => {
                assert(p9 =~= Seq::<(u32, Enc)>::empty());
            },
    }
}

proof fn lemma_alert_image_read(data: Seq<u8>, q: nat, m: SpecAlert, c: nat)
    requires
        alert_raw_ok(m, c),
        c + 1 >= 4,
        q + enc_all(alert_image_part(m)).len() <= data.len() <= usize::MAX,
        data.subrange(q as int, (q + enc_all(alert_image_part(m)).len()) as int) == enc_all(alert_image_part(m)),
    ensures
        fold_fields(fields_at(alert_image_part(m), q), SpecAlert { active_period: m.active_period, informed_entity: m.informed_entity, cause: m.cause, effect: m.effect, url: m.url, header_text: m.header_text, description_text: m.description_text, tts_header_text: m.tts_header_text, tts_description_text: m.tts_description_text, severity_level: m.severity_level, ..alert_default() }, alert_step(data, c)) == Ok::<SpecAlert, ErrorKind>(
            SpecAlert { active_period: m.active_period, informed_entity: m.informed_entity, cause: m.cause, effect: m.effect, url: m.url, header_text: m.header_text, description_text: m.description_text, tts_header_text: m.tts_header_text, tts_description_text: m.tts_description_text, severity_level: m.severity_level, image: m.image, ..alert_default() },
        ),
{
    let p10 = alert_image_part(m);
    let q10 = q;
    let step = alert_step(data, c);
    let m10 = SpecAlert { active_period: m.active_period, informed_entity: m.informed_entity, cause: m.cause, effect: m.effect, url: m.url, header_text: m.header_text, description_text: m.description_text, tts_header_text: m.tts_header_text, tts_description_text: m.tts_description_text, severity_level: m.severity_level, ..alert_default() };
    let m11 = SpecAlert { active_period: m.active_period, informed_entity: m.informed_entity, cause: m.cause, effect: m.effect, url: m.url, header_text: m.header_text, description_text: m.description_text, tts_header_text: m.tts_header_text, tts_description_text: m.tts_description_text, severity_level: m.severity_level, image: m.image, ..alert_default() };
    reveal(alert_image_part);
    match m.image {
        Some(x) => {
            lemma_enc_single(15u32, Enc::Bytes(x), q10);
            lemma_field_read(data, q10, q10 + enc_all(p10).len(), c, 15u32, Enc::Bytes(x));
            lemma_fold_single(field_at(15u32, Enc::Bytes(x), q10), m10, step);
            reveal(alert_applied);
            let a = q10 + key_bytes(15nat, 2).len() + varint_bytes(x.len()).len();
            lemma_check_in_place(data, a, x, RawKind::TranslatedImage, c);
            assert(Seq::<u8>::empty() + x =~= x);
            assert(alert_applied(data, field_at(15u32, Enc::Bytes(x), q10), m10, c) == Ok::<SpecAlert, ErrorKind>(m11));
        },
        None => {
                assert(p10 =~= Seq::<(u32, Enc)>::empty());
            },
    }
}

proof fn lemma_alert_image_alternative_text_read(data: Seq<u8>, q: nat, m: SpecAlert, c: nat)
    requires
        alert_raw_ok(m, c),
        c + 1 >= 4,
        q + enc_all(alert_image_alternative_text_part(m)).len() <= data.len() <= usize::MAX,
        data.subrange(q as int, (q + enc_all(alert_image_alternative_text_part(m)).len()) as int) == enc_all(alert_image_alternative_text_part(m)),
    ensures
        fold_fields(fields_at(alert_image_alternative_text_part(m), q), SpecAlert { active_period: m.active_period, informed_entity: m.informed_entity, cause: m.cause, effect: m.effect, url: m.url, header_text: m.header_text, description_text: m.description_text, tts_header_text: m.tts_header_text, tts_description_text: m.tts_description_text, severity_level: m.severity_level, image: m.image, ..alert_default() }, alert_step(data, c)) == Ok::<SpecAlert, ErrorKind>(
            SpecAlert { active_period: m.active_period, informed_entity: m.informed_entity, cause: m.cause, effect: m.effect, url: m.url, header_text: m.header_text, description_text: m.description_text, tts_header_text: m.tts_header_text, tts_description_text: m.tts_description_text, severity_level: m.severity_level, image: m.image, image_alternative_text: m.image_alternative_text, ..alert_default() },
        ),
{
    let p11 = alert_image_alternative_text_part(m);
    let q11 = q;
    let step = alert_step(data, c);
    let m11 = SpecAlert { active_period: m.active_period, informed_entity: m.informed_entity, cause: m.cause, effect: m.effect, url: m.url, header_text: m.header_text, description_text: m.description_text, tts_header_text: m.tts_header_text, tts_description_text: m.tts_description_text, severity_level: m.severity_level, image: m.image, ..alert_default() };
    let m12 = SpecAlert { active_period: m.active_period, informed_entity: m.informed_entity, cause: m.cause, effect: m.effect, url: m.url, header_text: m.header_text, description_text: m.description_text, tts_header_text: m.tts_header_text, tts_description_text: m.tts_description_text, severity_level: m.severity_level, image: m.image, image_alternative_text: m.image_alternative_text, ..alert_default() };
    reveal(alert_image_alternative_text_part);
    match m.image_alternative_text {
        Some(x) => {
            lemma_enc_single(16u32, Enc::Bytes(translated_string_encoded(x)), q11);
            lemma_field_read(data, q11, q11 + enc_all(p11).len(), c, 16u32, Enc::Bytes(translated_string_encoded(x)));
            lemma_fold_single(field_at(16u32, Enc::Bytes(translated_string_encoded(x)), q11), m11, step);
            reveal(alert_applied);
            let a = q11 + key_bytes(16nat, 2).len() + varint_bytes(translated_string_encoded(x).len()).len();
            lemma_translated_string_decoded(data, a, x, c);
            assert(alert_applied(data, field_at(16u32, Enc::Bytes(translated_string_encoded(x)), q11), m11, c) == Ok::<SpecAlert, ErrorKind>(m12));
        },
        None => {
                assert(p11 =~= Seq::<(u32, Enc)>::empty());
            },
    }
}

proof fn lemma_alert_cause_detail_read(data: Seq<u8>, q: nat, m: SpecAlert, c: nat)
    requires
        alert_raw_ok(m, c),
        c + 1 >= 4,
        q + enc_all(alert_cause_detail_part(m)).len() <= data.len() <= usize::MAX,
        data.subrange(q as int, (q + enc_all(alert_cause_detail_part(m)).len()) as int) == enc_all(alert_cause_detail_part(m)),
    ensures
        fold_fields(fields_at(alert_cause_detail_part(m), q), SpecAlert { active_period: m.active_period, informed_entity: m.informed_entity, cause: m.cause, effect: m.effect, url: m.url, header_text: m.header_text, description_text: m.description_text, tts_header_text: m.tts_header_text, tts_description_text: m.tts_description_text, severity_level: m.severity_level, image: m.image, image_alternative_text: m.image_alternative_text, ..alert_default() }, alert_step(data, c)) == Ok::<SpecAlert, ErrorKind>(
            SpecAlert { active_period: m.active_period, informed_entity: m.informed_entity, cause: m.cause, effect: m.effect, url: m.url, header_text: m.header_text, description_text: m.description_text, tts_header_text: m.tts_header_text, tts_description_text: m.tts_description_text, severity_level: m.severity_level, image: m.image, image_alternative_text: m.image_alternative_text, cause_detail: m.cause_detail, ..alert_default() },
        ),
{
    let p12 = alert_cause_detail_part(m);
    let q12 = q;
    let step = alert_step(data, c);
    let m12 = SpecAlert { active_period: m.active_period, informed_entity: m.informed_entity, cause: m.cause, effect: m.effect, url: m.url, header_text: m.header_text, description_text: m.description_text, tts_header_text: m.tts_header_text, tts_description_text: m.tts_description_text, severity_level: m.severity_level, image: m.image, image_alternative_text: m.image_alternative_text, ..alert_default() };
    let m13 = SpecAlert { active_period: m.active_period, informed_entity: m.informed_entity, cause: m.cause, effect: m.effect, url: m.url, header_text: m.header_text, description_text: m.description_text, tts_header_text: m.tts_header_text, tts_description_text: m.tts_description_text, severity_level: m.severity_level, image: m.image, image_alternative_text: m.image_alternative_text, cause_detail: m.cause_detail, ..alert_default() };
    reveal(alert_cause_detail_part);
    match m.cause_detail {
        Some(x) => {
            lemma_enc_single(17u32, Enc::Bytes(translated_string_encoded(x)), q12);
            lemma_field_read(data, q12, q12 + enc_all(p12).len(), c, 17u32, Enc::Bytes(translated_string_encoded(x)));
            lemma_fold_single(field_at(17u32, Enc::Bytes(translated_string_encoded(x)), q12), m12, step);
            reveal(alert_applied);
            let a = q12 + key_bytes(17nat, 2).len() + varint_bytes(translated_string_encoded(x).len()).len();
            lemma_translated_string_decoded(data, a, x, c);
            assert(alert_applied(data, field_at(17u32, Enc::Bytes(translated_string_encoded(x)), q12), m12, c) == Ok::<SpecAlert, ErrorKind>(m13));
        },
        None => {
                assert(p12 =~= Seq::<(u32, Enc)>::empty());
            },
    }
}

proof fn lemma_alert_effect_detail_read(data: Seq<u8>, q: nat, m: SpecAlert, c: nat)
    requires
        alert_raw_ok(m, c),
        c + 1 >= 4,
        q + enc_all(alert_effect_detail_part(m)).len() <= data.len() <= usize::MAX,
        data.subrange(q as int, (q + enc_all(alert_effect_detail_part(m)).len()) as int) == enc_all(alert_effect_detail_part(m)),
    ensures
        fold_fields(fields_at(alert_effect_detail_part(m), q), SpecAlert { active_period: m.active_period, informed_entity: m.informed_entity, cause: m.cause, effect: m.effect, url: m.url, header_text: m.header_text, description_text: m.description_text, tts_header_text: m.tts_header_text, tts_description_text: m.tts_description_text, severity_level: m.severity_level, image: m.image, image_alternative_text: m.image_alternative_text, cause_detail: m.cause_detail, ..alert_default() }, alert_step(data, c)) == Ok::<SpecAlert, ErrorKind>(
            SpecAlert { active_period: m.active_period, informed_entity: m.informed_entity, cause: m.cause, effect: m.effect, url: m.url, header_text: m.header_text, description_text: m.description_text, tts_header_text: m.tts_header_text, tts_description_text: m.tts_description_text, severity_level: m.severity_level, image: m.image, image_alternative_text: m.image_alternative_text, cause_detail: m.cause_detail, effect_detail: m.effect_detail, ..alert_default() },
        ),
{
    let p13 = alert_effect_detail_part(m);
    let q13 = q;
    let step = alert_step(data, c);
    let m13 = SpecAlert { active_period: m.active_period, informed_entity: m.informed_entity, cause: m.cause, effect: m.effect, url: m.url, header_text: m.header_text, description_text: m.description_text, tts_header_text: m.tts_header_text, tts_description_text: m.tts_description_text, severity_level: m.severity_level, image: m.image, image_alternative_text: m.image_alternative_text, cause_detail: m.cause_detail, ..alert_default() };
    let m14 = SpecAlert { active_period: m.active_period, informed_entity: m.informed_entity, cause: m.cause, effect: m.effect, url: m.url, header_text: m.header_text, description_text: m.description_text, tts_header_text: m.tts_header_text, tts_description_text: m.tts_description_text, severity_level: m.severity_level, image: m.image, image_alternative_text: m.image_alternative_text, cause_detail: m.cause_detail, effect_detail: m.effect_detail, ..alert_default() };
    reveal(alert_effect_detail_part);
    match m.effect_detail {
        Some(x) => {
            lemma_enc_single(18u32, Enc::Bytes(translated_string_encoded(x)), q13);
            lemma_field_read(data, q13, q13 + enc_all(p13).len(), c, 18u32, Enc::Bytes(translated_string_encoded(x)));
            lemma_fold_single(field_at(18u32, Enc::Bytes(translated_string_encoded(x)), q13), m13, step);
            reveal(alert_applied);
            let a = q13 + key_bytes(18nat, 2).len() + varint_bytes(translated_string_encoded(x).len()).len();
            lemma_translated_string_decoded(data, a, x, c);
            assert(alert_applied(data, field_at(18u32, Enc::Bytes(translated_string_encoded(x)), q13), m13, c) == Ok::<SpecAlert, ErrorKind>(m14));
        },
        None => {
                assert(p13 =~= Seq::<(u32, Enc)>::empty());
            },
    }
}

proof fn lemma_alert_fold(data: Seq<u8>, s: nat, m: SpecAlert, c: nat)
    requires
        alert_raw_ok(m, c),
        c + 1 >= 4,
        s + enc_all(alert_encs(m)).len() <= data.len() <= usize::MAX,
        data.subrange(s as int, (s + enc_all(alert_encs(m)).len()) as int) == enc_all(alert_encs(m)),
    ensures
        fold_fields(fields_at(alert_encs(m), s), alert_default(), alert_step(data, c)) == Ok::<
            SpecAlert,
            ErrorKind,
        >(m),
{
    let es = alert_encs(m);
    let step = alert_step(data, c);
    let p0 = alert_active_period_part(m);
    let p1 = alert_informed_entity_part(m);
    let p2 = alert_cause_part(m);
    let p3 = alert_effect_part(m);
    let p4 = alert_url_part(m);
    let p5 = alert_header_text_part(m);
    let p6 = alert_description_text_part(m);
    let p7 = alert_tts_header_text_part(m);
    let p8 = alert_tts_description_text_part(m);
    let p9 = alert_severity_level_part(m);
    let p10 = alert_image_part(m);
    let p11 = alert_image_alternative_text_part(m);
    let p12 = alert_cause_detail_part(m);
    let p13 = alert_effect_detail_part(m);
    let r13 = p13;
    let r12 = p12 + r13;
    let r11 = p11 + r12;
    let r10 = p10 + r11;
    let r9 = p9 + r10;
    let r8 = p8 + r9;
    let r7 = p7 + r8;
    let r6 = p6 + r7;
    let r5 = p5 + r6;
    let r4 = p4 + r5;
    let r3 = p3 + r4;
    let r2 = p2 + r3;
    let r1 = p1 + r2;
    let r0 = p0 + r1;
    assert(es == r0);
    let m0 = alert_default();
    let q0 = s;
    let m1 = SpecAlert { active_period: m.active_period, ..alert_default() };
    let q1 = q0 + enc_all(p0).len();
    assert(fold_fields(fields_at(r0, q0), m0, step) == fold_fields(fields_at(r1, q1), m1, step)
        && q1 + enc_all(r1).len() <= data.len()
        && data.subrange(q1 as int, (q1 + enc_all(r1).len()) as int) == enc_all(r1)) by {
        lemma_enc_add(p0, r1, q0);
        lemma_subrange_split(data, q0, enc_all(p0), enc_all(r1));
        lemma_fold_add(fields_at(p0, q0), fields_at(r1, q1), m0, step);
        lemma_alert_active_period_read(data, q0, m, c);
    }
    let m2 = SpecAlert { active_period: m.active_period, informed_entity: m.informed_entity, ..alert_default() };
    let q2 = q1 + enc_all(p1).len();
    assert(fold_fields(fields_at(r1, q1), m1, step) == fold_fields(fields_at(r2, q2), m2, step)
        && q2 + enc_all(r2).len() <= data.len()
        && data.subrange(q2 as int, (q2 + enc_all(r2).len()) as int) == enc_all(r2)) by {
        lemma_enc_add(p1, r2, q1);
        lemma_subrange_split(data, q1, enc_all(p1), enc_all(r2));
        lemma_fold_add(fields_at(p1, q1), fields_at(r2, q2), m1, step);
        lemma_alert_informed_entity_read(data, q1, m, c);
    }
    let m3 = SpecAlert { active_period: m.active_period, informed_entity: m.informed_entity, cause: m.cause, ..alert_default() };
    let q3 = q2 + enc_all(p2).len();
    assert(fold_fields(fields_at(r2, q2), m2, step) == fold_fields(fields_at(r3, q3), m3, step)
        && q3 + enc_all(r3).len() <= data.len()
        && data.subrange(q3 as int, (q3 + enc_all(r3).len()) as int) == enc_all(r3)) by {
        lemma_enc_add(p2, r3, q2);
        lemma_subrange_split(data, q2, enc_all(p2), enc_all(r3));
        lemma_fold_add(fields_at(p2, q2), fields_at(r3, q3), m2, step);
        lemma_alert_cause_read(data, q2, m, c);
    }
    let m4 = SpecAlert { active_period: m.active_period, informed_entity: m.informed_entity, cause: m.cause, effect: m.effect, ..alert_default() };
    let q4 = q3 + enc_all(p3).len();
    assert(fold_fields(fields_at(r3, q3), m3, step) == fold_fields(fields_at(r4, q4), m4, step)
        && q4 + enc_all(r4).len() <= data.len()
        && data.subrange(q4 as int, (q4 + enc_all(r4).len()) as int) == enc_all(r4)) by {
        lemma_enc_add(p3, r4, q3);
        lemma_subrange_split(data, q3, enc_all(p3), enc_all(r4));
        lemma_fold_add(fields_at(p3, q3), fields_at(r4, q4), m3, step);
        lemma_alert_effect_read(data, q3, m, c);
    }
    let m5 = SpecAlert { active_period: m.active_period, informed_entity: m.informed_entity, cause: m.cause, effect: m.effect, url: m.url, ..alert_default() };
    let q5 = q4 + enc_all(p4).len();
    assert(fold_fields(fields_at(r4, q4), m4, step) == fold_fields(fields_at(r5, q5), m5, step)
        && q5 + enc_all(r5).len() <= data.len()
        && data.subrange(q5 as int, (q5 + enc_all(r5).len()) as int) == enc_all(r5)) by {
        lemma_enc_add(p4, r5, q4);
        lemma_subrange_split(data, q4, enc_all(p4), enc_all(r5));
        lemma_fold_add(fields_at(p4, q4), fields_at(r5, q5), m4, step);
        lemma_alert_url_read(data, q4, m, c);
    }
    let m6 = SpecAlert { active_period: m.active_period, informed_entity: m.informed_entity, cause: m.cause, effect: m.effect, url: m.url, header_text: m.header_text, ..alert_default() };
    let q6 = q5 + enc_all(p5).len();
    assert(fold_fields(fields_at(r5, q5), m5, step) == fold_fields(fields_at(r6, q6), m6, step)
        && q6 + enc_all(r6).len() <= data.len()
        && data.subrange(q6 as int, (q6 + enc_all(r6).len()) as int) == enc_all(r6)) by {
        lemma_enc_add(p5, r6, q5);
        lemma_subrange_split(data, q5, enc_all(p5), enc_all(r6));
        lemma_fold_add(fields_at(p5, q5), fields_at(r6, q6), m5, step);
        lemma_alert_header_text_read(data, q5, m, c);
    }
    let m7 = SpecAlert { active_period: m.active_period, informed_entity: m.informed_entity, cause: m.cause, effect: m.effect, url: m.url, header_text: m.header_text, description_text: m.description_text, ..alert_default() };
    let q7 = q6 + enc_all(p6).len();
    assert(fold_fields(fields_at(r6, q6), m6, step) == fold_fields(fields_at(r7, q7), m7, step)
        && q7 + enc_all(r7).len() <= data.len()
        && data.subrange(q7 as int, (q7 + enc_all(r7).len()) as int) == enc_all(r7)) by {
        lemma_enc_add(p6, r7, q6);
        lemma_subrange_split(data, q6, enc_all(p6), enc_all(r7));
        lemma_fold_add(fields_at(p6, q6), fields_at(r7, q7), m6, step);
        lemma_alert_description_text_read(data, q6, m, c);
    }
    let m8 = SpecAlert { active_period: m.active_period, informed_entity: m.informed_entity, cause: m.cause, effect: m.effect, url: m.url, header_text: m.header_text, description_text: m.description_text, tts_header_text: m.tts_header_text, ..alert_default() };
    let q8 = q7 + enc_all(p7).len();
    assert(fold_fields(fields_at(r7, q7), m7, step) == fold_fields(fields_at(r8, q8), m8, step)
        && q8 + enc_all(r8).len() <= data.len()
        && data.subrange(q8 as int, (q8 + enc_all(r8).len()) as int) == enc_all(r8)) by {
        lemma_enc_add(p7, r8, q7);
        lemma_subrange_split(data, q7, enc_all(p7), enc_all(r8));
        lemma_fold_add(fields_at(p7, q7), fields_at(r8, q8), m7, step);
        lemma_alert_tts_header_text_read(data, q7, m, c);
    }
    let m9 = SpecAlert { active_period: m.active_period, informed_entity: m.informed_entity, cause: m.cause, effect: m.effect, url: m.url, header_text: m.header_text, description_text: m.description_text, tts_header_text: m.tts_header_text, tts_description_text: m.tts_description_text, ..alert_default() };
    let q9 = q8 + enc_all(p8).len();
    assert(fold_fields(fields_at(r8, q8), m8, step) == fold_fields(fields_at(r9, q9), m9, step)
        && q9 + enc_all(r9).len() <= data.len()
        && data.subrange(q9 as int, (q9 + enc_all(r9).len()) as int) == enc_all(r9)) by {
        lemma_enc_add(p8, r9, q8);
        lemma_subrange_split(data, q8, enc_all(p8), enc_all(r9));
        lemma_fold_add(fields_at(p8, q8), fields_at(r9, q9), m8, step);
        lemma_alert_tts_description_text_read(data, q8, m, c);
    }
    let m10 = SpecAlert { active_period: m.active_period, informed_entity: m.informed_entity, cause: m.cause, effect: m.effect, url: m.url, header_text: m.header_text, description_text: m.description_text, tts_header_text: m.tts_header_text, tts_description_text: m.tts_description_text, severity_level: m.severity_level, ..alert_default() };
    let q10 = q9 + enc_all(p9).len();
    assert(fold_fields(fields_at(r9, q9), m9, step) == fold_fields(fields_at(r10, q10), m10, step)
        && q10 + enc_all(r10).len() <= data.len()
        && data.subrange(q10 as int, (q10 + enc_all(r10).len()) as int) == enc_all(r10)) by {
        lemma_enc_add(p9, r10, q9);
        lemma_subrange_split(data, q9, enc_all(p9), enc_all(r10));
        lemma_fold_add(fields_at(p9, q9), fields_at(r10, q10), m9, step);
        lemma_alert_severity_level_read(data, q9, m, c);
    }
    let m11 = SpecAlert { active_period: m.active_period, informed_entity: m.informed_entity, cause: m.cause, effect: m.effect, url: m.url, header_text: m.header_text, description_text: m.description_text, tts_header_text: m.tts_header_text, tts_description_text: m.tts_description_text, severity_level: m.severity_level, image: m.image, ..alert_default() };
    let q11 = q10 + enc_all(p10).len();
    assert(fold_fields(fields_at(r10, q10), m10, step) == fold_fields(fields_at(r11, q11), m11, step)
        && q11 + enc_all(r11).len() <= data.len()
        && data.subrange(q11 as int, (q11 + enc_all(r11).len()) as int) == enc_all(r11)) by {
        lemma_enc_add(p10, r11, q10);
        lemma_subrange_split(data, q10, enc_all(p10), enc_all(r11));
        lemma_fold_add(fields_at(p10, q10), fields_at(r11, q11), m10, step);
        lemma_alert_image_read(data, q10, m, c);
    }
    let m12 = SpecAlert { active_period: m.active_period, informed_entity: m.informed_entity, cause: m.cause, effect: m.effect, url: m.url, header_text: m.header_text, description_text: m.description_text, tts_header_text: m.tts_header_text, tts_description_text: m.tts_description_text, severity_level: m.severity_level, image: m.image, image_alternative_text: m.image_alternative_text, ..alert_default() };
    let q12 = q11 + enc_all(p11).len();
    assert(fold_fields(fields_at(r11, q11), m11, step) == fold_fields(fields_at(r12, q12), m12, step)
        && q12 + enc_all(r12).len() <= data.len()
        && data.subrange(q12 as int, (q12 + enc_all(r12).len()) as int) == enc_all(r12)) by {
        lemma_enc_add(p11, r12, q11);
        lemma_subrange_split(data, q11, enc_all(p11), enc_all(r12));
        lemma_fold_add(fields_at(p11, q11), fields_at(r12, q12), m11, step);
        lemma_alert_image_alternative_text_read(data, q11, m, c);
    }
    let m13 = SpecAlert { active_period: m.active_period, informed_entity: m.informed_entity, cause: m.cause, effect: m.effect, url: m.url, header_text: m.header_text, description_text: m.description_text, tts_header_text: m.tts_header_text, tts_description_text: m.tts_description_text, severity_level: m.severity_level, image: m.image, image_alternative_text: m.image_alternative_text, cause_detail: m.cause_detail, ..alert_default() };
    let q13 = q12 + enc_all(p12).len();
    assert(fold_fields(fields_at(r12, q12), m12, step) == fold_fields(fields_at(r13, q13), m13, step)
        && q13 + enc_all(r13).len() <= data.len()
        && data.subrange(q13 as int, (q13 + enc_all(r13).len()) as int) == enc_all(r13)) by {
        lemma_enc_add(p12, r13, q12);
        lemma_subrange_split(data, q12, enc_all(p12), enc_all(r13));
        lemma_fold_add(fields_at(p12, q12), fields_at(r13, q13), m12, step);
        lemma_alert_cause_detail_read(data, q12, m, c);
    }
    let m14 = SpecAlert { active_period: m.active_period, informed_entity: m.informed_entity, cause: m.cause, effect: m.effect, url: m.url, header_text: m.header_text, description_text: m.description_text, tts_header_text: m.tts_header_text, tts_description_text: m.tts_description_text, severity_level: m.severity_level, image: m.image, image_alternative_text: m.image_alternative_text, cause_detail: m.cause_detail, effect_detail: m.effect_detail, ..alert_default() };
    let q14 = q13 + enc_all(p13).len();
    lemma_alert_effect_detail_read(data, q13, m, c);
    assert(m14 == m);
}

/// Decoding the bytes of a `Alert` gives it back.
pub proof fn lemma_alert_decoded(data: Seq<u8>, s: nat, m: SpecAlert, ctx: nat)
    requires
        alert_raw_ok(m, (ctx - 1) as nat),
        ctx >= 4,
        s + alert_encoded(m).len() <= data.len() <= usize::MAX,
        data.subrange(s as int, (s + alert_encoded(m).len()) as int) == alert_encoded(m),
    ensures
        alert_merged(data, s, s + alert_encoded(m).len(), ctx, alert_default()) == Ok::<
            SpecAlert,
            ErrorKind,
        >(m),
{
    lemma_alert_encs(m);
    lemma_fields_read(data, s, alert_encs(m), (ctx - 1) as nat);
    lemma_alert_fold(data, s, m, (ctx - 1) as nat);
}

/// Every part of a `TimeRange` kept as raw bytes, at any depth, passes the
/// check that decoding gives it when the fields of the `TimeRange` are read
/// with budget `c`.
pub open spec fn time_range_raw_ok(m: SpecTimeRange, c: nat) -> bool {
    true
}

/// Field `start` of a `TimeRange` as it is written.
#[verifier::opaque]
pub open spec fn time_range_start_part(m: SpecTimeRange) -> Seq<(u32, Enc)> {
    match m.start {
        Some(x) => seq![(1u32, Enc::Varint(x))],
        None => Seq::empty(),
    }
}

/// Field `end` of a `TimeRange` as it is written.
#[verifier::opaque]
pub open spec fn time_range_end_part(m: SpecTimeRange) -> Seq<(u32, Enc)> {
    match m.end {
        Some(x) => seq![(2u32, Enc::Varint(x))],
        None => Seq::empty(),
    }
}

/// The fields of a `TimeRange` as they are written.
pub open spec fn time_range_encs(m: SpecTimeRange) -> Seq<(u32, Enc)> {
    time_range_start_part(m) + (time_range_end_part(m))
}

proof fn lemma_time_range_encs(m: SpecTimeRange)
    ensures
        time_range_encoded(m) == enc_all(time_range_encs(m)),
        tags_ok(time_range_encs(m)),
{
    reveal(time_range_encoded);
    let p0 = time_range_start_part(m);
    let b0 = opt_varint_field(
            1,
            match m.start {
                Some(v) => Some(v),
                None => None,
            },
        );
    assert(enc_all(p0) == b0 && tags_ok(p0)) by {
        reveal(time_range_start_part);
        match m.start {
            Some(x) => {
                lemma_enc_single(1u32, Enc::Varint(x), 0);
                assert(enc_all(p0) =~= b0);
            },
            None => {
                assert(enc_all(p0) =~= b0);
            },
        }
    }
    let p1 = time_range_end_part(m);
    let b1 = opt_varint_field(
            2,
            match m.end {
                Some(v) => Some(v),
                None => None,
            },
        );
    assert(enc_all(p1) == b1 && tags_ok(p1)) by {
        reveal(time_range_end_part);
        match m.end {
            Some(x) => {
                lemma_enc_single(2u32, Enc::Varint(x), 0);
                assert(enc_all(p1) =~= b1);
            },
            None => {
                assert(enc_all(p1) =~= b1);
            },
        }
    }
    let r1 = p1;
    let s1 = b1;
    let r0 = p0 + r1;
    let s0 = b0 + s1;
    lemma_enc_add(p0, r1, 0);
    let l0 = b0;
    let l1 = l0 + b1;
    assert(l0 + s1 == s0);
    assert(time_range_encoded(m) == l1);
    assert(time_range_encs(m) == r0);
}

proof fn lemma_time_range_start_read(data: Seq<u8>, q: nat, m: SpecTimeRange, c: nat)
    requires
        time_range_raw_ok(m, c),
        c + 1 >= 1,
        q + enc_all(time_range_start_part(m)).len() <= data.len() <= usize::MAX,
        data.subrange(q as int, (q + enc_all(time_range_start_part(m)).len()) as int) == enc_all(time_range_start_part(m)),
    ensures
        fold_fields(fields_at(time_range_start_part(m), q), time_range_default(), time_range_step(data, c)) == Ok::<SpecTimeRange, ErrorKind>(
            SpecTimeRange { start: m.start, ..time_range_default() },
        ),
{
    let p0 = time_range_start_part(m);
    let q0 = q;
    let step = time_range_step(data, c);
    let m0 = time_range_default();
    let m1 = SpecTimeRange { start: m.start, ..time_range_default() };
    reveal(time_range_start_part);
    match m.start {
        Some(x) => {
            lemma_enc_single(1u32, Enc::Varint(x), q0);
            lemma_field_read(data, q0, q0 + enc_all(p0).len(), c, 1u32, Enc::Varint(x));
            lemma_fold_single(field_at(1u32, Enc::Varint(x), q0), m0, step);
            reveal(time_range_applied);
            assert(time_range_applied(data, field_at(1u32, Enc::Varint(x), q0), m0, c) == Ok::<SpecTimeRange, ErrorKind>(m1));
        },
        None => {
                assert(p0 =~= Seq::<(u32, Enc)>::empty());
            },
    }
}

proof fn lemma_time_range_end_read(data: Seq<u8>, q: nat, m: SpecTimeRange, c: nat)
    requires
        time_range_raw_ok(m, c),
        c + 1 >= 1,
        q + enc_all(time_range_end_part(m)).len() <= data.len() <= usize::MAX,
        data.subrange(q as int, (q + enc_all(time_range_end_part(m)).len()) as int) == enc_all(time_range_end_part(m)),
    ensures
        fold_fields(fields_at(time_range_end_part(m), q), SpecTimeRange { start: m.start, ..time_range_default() }, time_range_step(data, c)) == Ok::<SpecTimeRange, ErrorKind>(
            SpecTimeRange { start: m.start, end: m.end, ..time_range_default() },
        ),
{
    let p1 = time_range_end_part(m);
    let q1 = q;
    let step = time_range_step(data, c);
    let m1 = SpecTimeRange { start: m.start, ..time_range_default() };
    let m2 = SpecTimeRange { start: m.start, end: m.end, ..time_range_default() };
    reveal(time_range_end_part);
    match m.end {
        Some(x) => {
            lemma_enc_single(2u32, Enc::Varint(x), q1);
            lemma_field_read(data, q1, q1 + enc_all(p1).len(), c, 2u32, Enc::Varint(x));
            lemma_fold_single(field_at(2u32, Enc::Varint(x), q1), m1, step);
            reveal(time_range_applied);
            assert(time_range_applied(data, field_at(2u32, Enc::Varint(x), q1), m1, c) == Ok::<SpecTimeRange, ErrorKind>(m2));
        },
        None => {
                assert(p1 =~= Seq::<(u32, Enc)>::empty());
            },
    }
}

proof fn lemma_time_range_fold(data: Seq<u8>, s: nat, m: SpecTimeRange, c: nat)
    requires
        time_range_raw_ok(m, c),
        c + 1 >= 1,
        s + enc_all(time_range_encs(m)).len() <= data.len() <= usize::MAX,
        data.subrange(s as int, (s + enc_all(time_range_encs(m)).len()) as int) == enc_all(time_range_encs(m)),
    ensures
        fold_fields(fields_at(time_range_encs(m), s), time_range_default(), time_range_step(data, c)) == Ok::<
            SpecTimeRange,
            ErrorKind,
        >(m),
{
    let es = time_range_encs(m);
    let step = time_range_step(data, c);
    let p0 = time_range_start_part(m);
    let p1 = time_range_end_part(m);
    let r1 = p1;
    let r0 = p0 + r1;
    assert(es == r0);
    let m0 = time_range_default();
    let q0 = s;
    let m1 = SpecTimeRange { start: m.start, ..time_range_default() };
    let q1 = q0 + enc_all(p0).len();
    assert(fold_fields(fields_at(r0, q0), m0, step) == fold_fields(fields_at(r1, q1), m1, step)
        && q1 + enc_all(r1).len() <= data.len()
        && data.subrange(q1 as int, (q1 + enc_all(r1).len()) as int) == enc_all(r1)) by {
        lemma_enc_add(p0, r1, q0);
        lemma_subrange_split(data, q0, enc_all(p0), enc_all(r1));
        lemma_fold_add(fields_at(p0, q0), fields_at(r1, q1), m0, step);
        lemma_time_range_start_read(data, q0, m, c);
    }
    let m2 = SpecTimeRange { start: m.start, end: m.end, ..time_range_default() };
    let q2 = q1 + enc_all(p1).len();
    lemma_time_range_end_read(data, q1, m, c);
    assert(m2 == m);
}

/// Decoding the bytes of a `TimeRange` gives it back.
pub proof fn lemma_time_range_decoded(data: Seq<u8>, s: nat, m: SpecTimeRange, ctx: nat)
    requires
        time_range_raw_ok(m, (ctx - 1) as nat),
        ctx >= 1,
        s + time_range_encoded(m).len() <= data.len() <= usize::MAX,
        data.subrange(s as int, (s + time_range_encoded(m).len()) as int) == time_range_encoded(m),
    ensures
        time_range_merged(data, s, s + time_range_encoded(m).len(), ctx, time_range_default()) == Ok::<
            SpecTimeRange,
            ErrorKind,
        >(m),
{
    lemma_time_range_encs(m);
    lemma_fields_read(data, s, time_range_encs(m), (ctx - 1) as nat);
    lemma_time_range_fold(data, s, m, (ctx - 1) as nat);
}

/// Every part of a `EntitySelector` kept as raw bytes, at any depth, passes the
/// check that decoding gives it when the fields of the `EntitySelector` are read
/// with budget `c`.
pub open spec fn entity_selector_raw_ok(m: SpecEntitySelector, c: nat) -> bool {
    (m.trip matches Some(x) ==> trip_descriptor_raw_ok(x, (c - 1) as nat))
}

/// Field `agency_id` of a `EntitySelector` as it is written.
#[verifier::opaque]
pub open spec fn entity_selector_agency_id_part(m: SpecEntitySelector) -> Seq<(u32, Enc)> {
    match m.agency_id {
        Some(x) => seq![(1u32, Enc::Bytes(encode_utf8(x)))],
        None => Seq::empty(),
    }
}

/// Field `route_id` of a `EntitySelector` as it is written.
#[verifier::opaque]
pub open spec fn entity_selector_route_id_part(m: SpecEntitySelector) -> Seq<(u32, Enc)> {
    match m.route_id {
        Some(x) => seq![(2u32, Enc::Bytes(encode_utf8(x)))],
        None => Seq::empty(),
    }
}

/// Field `route_type` of a `EntitySelector` as it is written.
#[verifier::opaque]
pub open spec fn entity_selector_route_type_part(m: SpecEntitySelector) -> Seq<(u32, Enc)> {
    match m.route_type {
        Some(x) => seq![(3u32, Enc::Varint(x as u64))],
        None => Seq::empty(),
    }
}

/// Field `trip` of a `EntitySelector` as it is written.
#[verifier::opaque]
pub open spec fn entity_selector_trip_part(m: SpecEntitySelector) -> Seq<(u32, Enc)> {
    match m.trip {
        Some(x) => seq![(4u32, Enc::Bytes(trip_descriptor_encoded(x)))],
        None => Seq::empty(),
    }
}

/// Field `stop_id` of a `EntitySelector` as it is written.
#[verifier::opaque]
pub open spec fn entity_selector_stop_id_part(m: SpecEntitySelector) -> Seq<(u32, Enc)> {
    match m.stop_id {
        Some(x) => seq![(5u32, Enc::Bytes(encode_utf8(x)))],
        None => Seq::empty(),
    }
}

/// Field `direction_id` of a `EntitySelector` as it is written.
#[verifier::opaque]
pub open spec fn entity_selector_direction_id_part(m: SpecEntitySelector) -> Seq<(u32, Enc)> {
    match m.direction_id {
        Some(x) => seq![(6u32, Enc::Varint(x as u64))],
        None => Seq::empty(),
    }
}

/// The fields of a `EntitySelector` as they are written.
pub open spec fn entity_selector_encs(m: SpecEntitySelector) -> Seq<(u32, Enc)> {
    entity_selector_agency_id_part(m) + (entity_selector_route_id_part(m) + (entity_selector_route_type_part(m) + (entity_selector_trip_part(m) + (entity_selector_stop_id_part(m) + (entity_selector_direction_id_part(m))))))
}

#[verifier::rlimit(100)]
proof fn lemma_entity_selector_encs(m: SpecEntitySelector)
    ensures
        entity_selector_encoded(m) == enc_all(entity_selector_encs(m)),
        tags_ok(entity_selector_encs(m)),
{
    reveal(entity_selector_encoded);
    let p0 = entity_selector_agency_id_part(m);
    let b0 = match m.agency_id {
            Some(x) => string_field(1, x),
            None => Seq::empty(),
        };
    assert(enc_all(p0) == b0 && tags_ok(p0)) by {
        reveal(entity_selector_agency_id_part);
        match m.agency_id {
            Some(x) => {
                lemma_enc_single(1u32, Enc::Bytes(encode_utf8(x)), 0);
                assert(enc_all(p0) =~= b0);
            },
            None => {
                assert(enc_all(p0) =~= b0);
            },
        }
    }
    let p1 = entity_selector_route_id_part(m);
    let b1 = match m.route_id {
            Some(x) => string_field(2, x),
            None => Seq::empty(),
        };
    assert(enc_all(p1) == b1 && tags_ok(p1)) by {
        reveal(entity_selector_route_id_part);
        match m.route_id {
            Some(x) => {
                lemma_enc_single(2u32, Enc::Bytes(encode_utf8(x)), 0);
                assert(enc_all(p1) =~= b1);
            },
            None => {
                assert(enc_all(p1) =~= b1);
            },
        }
    }
    let p2 = entity_selector_route_type_part(m);
    let b2 = opt_varint_field(
            3,
            match m.route_type {
                Some(v) => Some(v as u64),
                None => None,
            },
        );
    assert(enc_all(p2) == b2 && tags_ok(p2)) by {
        reveal(entity_selector_route_type_part);
        match m.route_type {
            Some(x) => {
                lemma_enc_single(3u32, Enc::Varint(x as u64), 0);
                assert(enc_all(p2) =~= b2);
            },
            None => {
                assert(enc_all(p2) =~= b2);
            },
        }
    }
    let p3 = entity_selector_trip_part(m);
    let b3 = opt_bytes_field(
            4,
            match m.trip {
                Some(x) => Some(trip_descriptor_encoded(x)),
                None => None,
            },
        );
    assert(enc_all(p3) == b3 && tags_ok(p3)) by {
        reveal(entity_selector_trip_part);
        match m.trip {
            Some(x) => {
                lemma_enc_single(4u32, Enc::Bytes(trip_descriptor_encoded(x)), 0);
                assert(enc_all(p3) =~= b3);
            },
            None => {
                assert(enc_all(p3) =~= b3);
            },
        }
    }
    let p4 = entity_selector_stop_id_part(m);
    let b4 = match m.stop_id {
            Some(x) => string_field(5, x),
            None => Seq::empty(),
        };
    assert(enc_all(p4) == b4 && tags_ok(p4)) by {
        reveal(entity_selector_stop_id_part);
        match m.stop_id {
            Some(x) => {
                lemma_enc_single(5u32, Enc::Bytes(encode_utf8(x)), 0);
                assert(enc_all(p4) =~= b4);
            },
            None => {
                assert(enc_all(p4) =~= b4);
            },
        }
    }
    let p5 = entity_selector_direction_id_part(m);
    let b5 = opt_varint_field(
            6,
            match m.direction_id {
                Some(v) => Some(v as u64),
                None => None,
            },
        );
    assert(enc_all(p5) == b5 && tags_ok(p5)) by {
        reveal(entity_selector_direction_id_part);
        match m.direction_id {
            Some(x) => {
                lemma_enc_single(6u32, Enc::Varint(x as u64), 0);
                assert(enc_all(p5) =~= b5);
            },
            None => {
                assert(enc_all(p5) =~= b5);
            },
        }
    }
    let r5 = p5;
    let s5 = b5;
    let r4 = p4 + r5;
    let s4 = b4 + s5;
    lemma_enc_add(p4, r5, 0);
    let r3 = p3 + r4;
    let s3 = b3 + s4;
    lemma_enc_add(p3, r4, 0);
    let r2 = p2 + r3;
    let s2 = b2 + s3;
    lemma_enc_add(p2, r3, 0);
    let r1 = p1 + r2;
    let s1 = b1 + s2;
    lemma_enc_add(p1, r2, 0);
    let r0 = p0 + r1;
    let s0 = b0 + s1;
    lemma_enc_add(p0, r1, 0);
    let l0 = b0;
    let l1 = l0 + b1;
    let l2 = l1 + b2;
    let l3 = l2 + b3;
    let l4 = l3 + b4;
    let l5 = l4 + b5;
    assert(l0 + s1 == s0);
    lemma_add_assoc(l0, b1, s2);
    assert(l1 + s2 == s0);
    lemma_add_assoc(l1, b2, s3);
    assert(l2 + s3 == s0);
    lemma_add_assoc(l2, b3, s4);
    assert(l3 + s4 == s0);
    lemma_add_assoc(l3, b4, s5);
    assert(l4 + s5 == s0);
    assert(entity_selector_encoded(m) == l5);
    assert(entity_selector_encs(m) == r0);
}

proof fn lemma_entity_selector_agency_id_read(data: Seq<u8>, q: nat, m: SpecEntitySelector, c: nat)
    requires
        entity_selector_raw_ok(m, c),
        c + 1 >= 3,
        q + enc_all(entity_selector_agency_id_part(m)).len() <= data.len() <= usize::MAX,
        data.subrange(q as int, (q + enc_all(entity_selector_agency_id_part(m)).len()) as int) == enc_all(entity_selector_agency_id_part(m)),
    ensures
        fold_fields(fields_at(entity_selector_agency_id_part(m), q), entity_selector_default(), entity_selector_step(data, c)) == Ok::<SpecEntitySelector, ErrorKind>(
            SpecEntitySelector { agency_id: m.agency_id, ..entity_selector_default() },
        ),
{
    let p0 = entity_selector_agency_id_part(m);
    let q0 = q;
    let step = entity_selector_step(data, c);
    let m0 = entity_selector_default();
    let m1 = SpecEntitySelector { agency_id: m.agency_id, ..entity_selector_default() };
    reveal(entity_selector_agency_id_part);
    match m.agency_id {
        Some(x) => {
            lemma_enc_single(1u32, Enc::Bytes(encode_utf8(x)), q0);
            lemma_field_read(data, q0, q0 + enc_all(p0).len(), c, 1u32, Enc::Bytes(encode_utf8(x)));
            lemma_fold_single(field_at(1u32, Enc::Bytes(encode_utf8(x)), q0), m0, step);
            reveal(entity_selector_applied);
            encode_utf8_valid_utf8(x);
            encode_utf8_decode_utf8(x);
            assert(entity_selector_applied(data, field_at(1u32, Enc::Bytes(encode_utf8(x)), q0), m0, c) == Ok::<SpecEntitySelector, ErrorKind>(m1));
        },
        None => {
                assert(p0 =~= Seq::<(u32, Enc)>::empty());
            },
    }
}

proof fn lemma_entity_selector_route_id_read(data: Seq<u8>, q: nat, m: SpecEntitySelector, c: nat)
    requires
        entity_selector_raw_ok(m, c),
        c + 1 >= 3,
        q + enc_all(entity_selector_route_id_part(m)).len() <= data.len() <= usize::MAX,
        data.subrange(q as int, (q + enc_all(entity_selector_route_id_part(m)).len()) as int) == enc_all(entity_selector_route_id_part(m)),
    ensures
        fold_fields(fields_at(entity_selector_route_id_part(m), q), SpecEntitySelector { agency_id: m.agency_id, ..entity_selector_default() }, entity_selector_step(data, c)) == Ok::<SpecEntitySelector, ErrorKind>(
            SpecEntitySelector { agency_id: m.agency_id, route_id: m.route_id, ..entity_selector_default() },
        ),
{
    let p1 = entity_selector_route_id_part(m);
    let q1 = q;
    let step = entity_selector_step(data, c);
    let m1 = SpecEntitySelector { agency_id: m.agency_id, ..entity_selector_default() };
    let m2 = SpecEntitySelector { agency_id: m.agency_id, route_id: m.route_id, ..entity_selector_default() };
    reveal(entity_selector_route_id_part);
    match m.route_id {
        Some(x) => {
            lemma_enc_single(2u32, Enc::Bytes(encode_utf8(x)), q1);
            lemma_field_read(data, q1, q1 + enc_all(p1).len(), c, 2u32, Enc::Bytes(encode_utf8(x)));
            lemma_fold_single(field_at(2u32, Enc::Bytes(encode_utf8(x)), q1), m1, step);
            reveal(entity_selector_applied);
            encode_utf8_valid_utf8(x);
            encode_utf8_decode_utf8(x);
            assert(entity_selector_applied(data, field_at(2u32, Enc::Bytes(encode_utf8(x)), q1), m1, c) == Ok::<SpecEntitySelector, ErrorKind>(m2));
        },
        None => {
                assert(p1 =~= Seq::<(u32, Enc)>::empty());
            },
    }
}

proof fn lemma_entity_selector_route_type_read(data: Seq<u8>, q: nat, m: SpecEntitySelector, c: nat)
    requires
        entity_selector_raw_ok(m, c),
        c + 1 >= 3,
        q + enc_all(entity_selector_route_type_part(m)).len() <= data.len() <= usize::MAX,
        data.subrange(q as int, (q + enc_all(entity_selector_route_type_part(m)).len()) as int) == enc_all(entity_selector_route_type_part(m)),
    ensures
        fold_fields(fields_at(entity_selector_route_type_part(m), q), SpecEntitySelector { agency_id: m.agency_id, route_id: m.route_id, ..entity_selector_default() }, entity_selector_step(data, c)) == Ok::<SpecEntitySelector, ErrorKind>(
            SpecEntitySelector { agency_id: m.agency_id, route_id: m.route_id, route_type: m.route_type, ..entity_selector_default() },
        ),
{
    let p2 = entity_selector_route_type_part(m);
    let q2 = q;
    let step = entity_selector_step(data, c);
    let m2 = SpecEntitySelector { agency_id: m.agency_id, route_id: m.route_id, ..entity_selector_default() };
    let m3 = SpecEntitySelector { agency_id: m.agency_id, route_id: m.route_id, route_type: m.route_type, ..entity_selector_default() };
    reveal(entity_selector_route_type_part);
    match m.route_type {
        Some(x) => {
            lemma_enc_single(3u32, Enc::Varint(x as u64), q2);
            lemma_field_read(data, q2, q2 + enc_all(p2).len(), c, 3u32, Enc::Varint(x as u64));
            lemma_fold_single(field_at(3u32, Enc::Varint(x as u64), q2), m2, step);
            reveal(entity_selector_applied);
            lemma_i32_wire(x);
            assert(entity_selector_applied(data, field_at(3u32, Enc::Varint(x as u64), q2), m2, c) == Ok::<SpecEntitySelector, ErrorKind>(m3));
        },
        None => {
                assert(p2 =~= Seq::<(u32, Enc)>::empty());
            },
    }
}

proof fn lemma_entity_selector_trip_read(data: Seq<u8>, q: nat, m: SpecEntitySelector, c: nat)
    requires
        entity_selector_raw_ok(m, c),
        c + 1 >= 3,
        q + enc_all(entity_selector_trip_part(m)).len() <= data.len() <= usize::MAX,
        data.subrange(q as int, (q + enc_all(entity_selector_trip_part(m)).len()) as int) == enc_all(entity_selector_trip_part(m)),
    ensures
        fold_fields(fields_at(entity_selector_trip_part(m), q), SpecEntitySelector { agency_id: m.agency_id, route_id: m.route_id, route_type: m.route_type, ..entity_selector_default() }, entity_selector_step(data, c)) == Ok::<SpecEntitySelector, ErrorKind>(
            SpecEntitySelector { agency_id: m.agency_id, route_id: m.route_id, route_type: m.route_type, trip: m.trip, ..entity_selector_default() },
        ),
{
    let p3 = entity_selector_trip_part(m);
    let q3 = q;
    let step = entity_selector_step(data, c);
    let m3 = SpecEntitySelector { agency_id: m.agency_id, route_id: m.route_id, route_type: m.route_type, ..entity_selector_default() };
    let m4 = SpecEntitySelector { agency_id: m.agency_id, route_id: m.route_id, route_type: m.route_type, trip: m.trip, ..entity_selector_default() };
    reveal(entity_selector_trip_part);
    match m.trip {
        Some(x) => {
            lemma_enc_single(4u32, Enc::Bytes(trip_descriptor_encoded(x)), q3);
            lemma_field_read(data, q3, q3 + enc_all(p3).len(), c, 4u32, Enc::Bytes(trip_descriptor_encoded(x)));
            lemma_fold_single(field_at(4u32, Enc::Bytes(trip_descriptor_encoded(x)), q3), m3, step);
            reveal(entity_selector_applied);
            let a = q3 + key_bytes(4nat, 2).len() + varint_bytes(trip_descriptor_encoded(x).len()).len();
            lemma_trip_descriptor_decoded(data, a, x, c);
            assert(entity_selector_applied(data, field_at(4u32, Enc::Bytes(trip_descriptor_encoded(x)), q3), m3, c) == Ok::<SpecEntitySelector, ErrorKind>(m4));
        },
        None => {
                assert(p3 =~= Seq::<(u32, Enc)>::empty());
            },
    }
}

proof fn lemma_entity_selector_stop_id_read(data: Seq<u8>, q: nat, m: SpecEntitySelector, c: nat)
    requires
        entity_selector_raw_ok(m, c),
        c + 1 >= 3,
        q + enc_all(entity_selector_stop_id_part(m)).len() <= data.len() <= usize::MAX,
        data.subrange(q as int, (q + enc_all(entity_selector_stop_id_part(m)).len()) as int) == enc_all(entity_selector_stop_id_part(m)),
    ensures
        fold_fields(fields_at(entity_selector_stop_id_part(m), q), SpecEntitySelector { agency_id: m.agency_id, route_id: m.route_id, route_type: m.route_type, trip: m.trip, ..entity_selector_default() }, entity_selector_step(data, c)) == Ok::<SpecEntitySelector, ErrorKind>(
            SpecEntitySelector { agency_id: m.agency_id, route_id: m.route_id, route_type: m.route_type, trip: m.trip, stop_id: m.stop_id, ..entity_selector_default() },
        ),
{
    let p4 = entity_selector_stop_id_part(m);
    let q4 = q;
    let step = entity_selector_step(data, c);
    let m4 = SpecEntitySelector { agency_id: m.agency_id, route_id: m.route_id, route_type: m.route_type, trip: m.trip, ..entity_selector_default() };
    let m5 = SpecEntitySelector { agency_id: m.agency_id, route_id: m.route_id, route_type: m.route_type, trip: m.trip, stop_id: m.stop_id, ..entity_selector_default() };
    reveal(entity_selector_stop_id_part);
    match m.stop_id {
        Some(x) => {
            lemma_enc_single(5u32, Enc::Bytes(encode_utf8(x)), q4);
            lemma_field_read(data, q4, q4 + enc_all(p4).len(), c, 5u32, Enc::Bytes(encode_utf8(x)));
            lemma_fold_single(field_at(5u32, Enc::Bytes(encode_utf8(x)), q4), m4, step);
            reveal(entity_selector_applied);
            encode_utf8_valid_utf8(x);
            encode_utf8_decode_utf8(x);
            assert(entity_selector_applied(data, field_at(5u32, Enc::Bytes(encode_utf8(x)), q4), m4, c) == Ok::<SpecEntitySelector, ErrorKind>(m5));
        },
        None => {
                assert(p4 =~= Seq::<(u32, Enc)>::empty());
            },
    }
}

proof fn lemma_entity_selector_direction_id_read(data: Seq<u8>, q: nat, m: SpecEntitySelector, c: nat)
    requires
        entity_selector_raw_ok(m, c),
        c + 1 >= 3,
        q + enc_all(entity_selector_direction_id_part(m)).len() <= data.len() <= usize::MAX,
        data.subrange(q as int, (q + enc_all(entity_selector_direction_id_part(m)).len()) as int) == enc_all(entity_selector_direction_id_part(m)),
    ensures
        fold_fields(fields_at(entity_selector_direction_id_part(m), q), SpecEntitySelector { agency_id: m.agency_id, route_id: m.route_id, route_type: m.route_type, trip: m.trip, stop_id: m.stop_id, ..entity_selector_default() }, entity_selector_step(data, c)) == Ok::<SpecEntitySelector, ErrorKind>(
            SpecEntitySelector { agency_id: m.agency_id, route_id: m.route_id, route_type: m.route_type, trip: m.trip, stop_id: m.stop_id, direction_id: m.direction_id, ..entity_selector_default() },
        ),
{
    let p5 = entity_selector_direction_id_part(m);
    let q5 = q;
    let step = entity_selector_step(data, c);
    let m5 = SpecEntitySelector { agency_id: m.agency_id, route_id: m.route_id, route_type: m.route_type, trip: m.trip, stop_id: m.stop_id, ..entity_selector_default() };
    let m6 = SpecEntitySelector { agency_id: m.agency_id, route_id: m.route_id, route_type: m.route_type, trip: m.trip, stop_id: m.stop_id, direction_id: m.direction_id, ..entity_selector_default() };
    reveal(entity_selector_direction_id_part);
    match m.direction_id {
        Some(x) => {
            lemma_enc_single(6u32, Enc::Varint(x as u64), q5);
            lemma_field_read(data, q5, q5 + enc_all(p5).len(), c, 6u32, Enc::Varint(x as u64));
            lemma_fold_single(field_at(6u32, Enc::Varint(x as u64), q5), m5, step);
            reveal(entity_selector_applied);
            assert(entity_selector_applied(data, field_at(6u32, Enc::Varint(x as u64), q5), m5, c) == Ok::<SpecEntitySelector, ErrorKind>(m6));
        },
        None => {
                assert(p5 =~= Seq::<(u32, Enc)>::empty());
            },
    }
}

proof fn lemma_entity_selector_fold(data: Seq<u8>, s: nat, m: SpecEntitySelector, c: nat)
    requires
        entity_selector_raw_ok(m, c),
        c + 1 >= 3,
        s + enc_all(entity_selector_encs(m)).len() <= data.len() <= usize::MAX,
        data.subrange(s as int, (s + enc_all(entity_selector_encs(m)).len()) as int) == enc_all(entity_selector_encs(m)),
    ensures
        fold_fields(fields_at(entity_selector_encs(m), s), entity_selector_default(), entity_selector_step(data, c)) == Ok::<
            SpecEntitySelector,
            ErrorKind,
        >(m),
{
    let es = entity_selector_encs(m);
    let step = entity_selector_step(data, c);
    let p0 = entity_selector_agency_id_part(m);
    let p1 = entity_selector_route_id_part(m);
    let p2 = entity_selector_route_type_part(m);
    let p3 = entity_selector_trip_part(m);
    let p4 = entity_selector_stop_id_part(m);
    let p5 = entity_selector_direction_id_part(m);
    let r5 = p5;
    let r4 = p4 + r5;
    let r3 = p3 + r4;
    let r2 = p2 + r3;
    let r1 = p1 + r2;
    let r0 = p0 + r1;
    assert(es == r0);
    let m0 = entity_selector_default();
    let q0 = s;
    let m1 = SpecEntitySelector { agency_id: m.agency_id, ..entity_selector_default() };
    let q1 = q0 + enc_all(p0).len();
    assert(fold_fields(fields_at(r0, q0), m0, step) == fold_fields(fields_at(r1, q1), m1, step)
        && q1 + enc_all(r1).len() <= data.len()
        && data.subrange(q1 as int, (q1 + enc_all(r1).len()) as int) == enc_all(r1)) by {
        lemma_enc_add(p0, r1, q0);
        lemma_subrange_split(data, q0, enc_all(p0), enc_all(r1));
        lemma_fold_add(fields_at(p0, q0), fields_at(r1, q1), m0, step);
        lemma_entity_selector_agency_id_read(data, q0, m, c);
    }
    let m2 = SpecEntitySelector { agency_id: m.agency_id, route_id: m.route_id, ..entity_selector_default() };
    let q2 = q1 + enc_all(p1).len();
    assert(fold_fields(fields_at(r1, q1), m1, step) == fold_fields(fields_at(r2, q2), m2, step)
        && q2 + enc_all(r2).len() <= data.len()
        && data.subrange(q2 as int, (q2 + enc_all(r2).len()) as int) == enc_all(r2)) by {
        lemma_enc_add(p1, r2, q1);
        lemma_subrange_split(data, q1, enc_all(p1), enc_all(r2));
        lemma_fold_add(fields_at(p1, q1), fields_at(r2, q2), m1, step);
        lemma_entity_selector_route_id_read(data, q1, m, c);
    }
    let m3 = SpecEntitySelector { agency_id: m.agency_id, route_id: m.route_id, route_type: m.route_type, ..entity_selector_default() };
    let q3 = q2 + enc_all(p2).len();
    assert(fold_fields(fields_at(r2, q2), m2, step) == fold_fields(fields_at(r3, q3), m3, step)
        && q3 + enc_all(r3).len() <= data.len()
        && data.subrange(q3 as int, (q3 + enc_all(r3).len()) as int) == enc_all(r3)) by {
        lemma_enc_add(p2, r3, q2);
        lemma_subrange_split(data, q2, enc_all(p2), enc_all(r3));
        lemma_fold_add(fields_at(p2, q2), fields_at(r3, q3), m2, step);
        lemma_entity_selector_route_type_read(data, q2, m, c);
    }
    let m4 = SpecEntitySelector { agency_id: m.agency_id, route_id: m.route_id, route_type: m.route_type, trip: m.trip, ..entity_selector_default() };
    let q4 = q3 + enc_all(p3).len();
    assert(fold_fields(fields_at(r3, q3), m3, step) == fold_fields(fields_at(r4, q4), m4, step)
        && q4 + enc_all(r4).len() <= data.len()
        && data.subrange(q4 as int, (q4 + enc_all(r4).len()) as int) == enc_all(r4)) by {
        lemma_enc_add(p3, r4, q3);
        lemma_subrange_split(data, q3, enc_all(p3), enc_all(r4));
        lemma_fold_add(fields_at(p3, q3), fields_at(r4, q4), m3, step);
        lemma_entity_selector_trip_read(data, q3, m, c);
    }
    let m5 = SpecEntitySelector { agency_id: m.agency_id, route_id: m.route_id, route_type: m.route_type, trip: m.trip, stop_id: m.stop_id, ..entity_selector_default() };
    let q5 = q4 + enc_all(p4).len();
    assert(fold_fields(fields_at(r4, q4), m4, step) == fold_fields(fields_at(r5, q5), m5, step)
        && q5 + enc_all(r5).len() <= data.len()
        && data.subrange(q5 as int, (q5 + enc_all(r5).len()) as int) == enc_all(r5)) by {
        lemma_enc_add(p4, r5, q4);
        lemma_subrange_split(data, q4, enc_all(p4), enc_all(r5));
        lemma_fold_add(fields_at(p4, q4), fields_at(r5, q5), m4, step);
        lemma_entity_selector_stop_id_read(data, q4, m, c);
    }
    let m6 = SpecEntitySelector { agency_id: m.agency_id, route_id: m.route_id, route_type: m.route_type, trip: m.trip, stop_id: m.stop_id, direction_id: m.direction_id, ..entity_selector_default() };
    let q6 = q5 + enc_all(p5).len();
    lemma_entity_selector_direction_id_read(data, q5, m, c);
    assert(m6 == m);
}

/// Decoding the bytes of a `EntitySelector` gives it back.
pub proof fn lemma_entity_selector_decoded(data: Seq<u8>, s: nat, m: SpecEntitySelector, ctx: nat)
    requires
        entity_selector_raw_ok(m, (ctx - 1) as nat),
        ctx >= 3,
        s + entity_selector_encoded(m).len() <= data.len() <= usize::MAX,
        data.subrange(s as int, (s + entity_selector_encoded(m).len()) as int) == entity_selector_encoded(m),
    ensures
        entity_selector_merged(data, s, s + entity_selector_encoded(m).len(), ctx, entity_selector_default()) == Ok::<
            SpecEntitySelector,
            ErrorKind,
        >(m),
{
    lemma_entity_selector_encs(m);
    lemma_fields_read(data, s, entity_selector_encs(m), (ctx - 1) as nat);
    lemma_entity_selector_fold(data, s, m, (ctx - 1) as nat);
}

/// Every part of a `TranslatedString` kept as raw bytes, at any depth, passes the
/// check that decoding gives it when the fields of the `TranslatedString` are read
/// with budget `c`.
pub open spec fn translated_string_raw_ok(m: SpecTranslatedString, c: nat) -> bool {
    (forall|i: int| 0 <= i < m.translation.len() ==> translation_raw_ok(#[trigger] m.translation[i], (c - 1) as nat))
}

/// Field `translation` of a `TranslatedString` as it is written.
#[verifier::opaque]
pub open spec fn translated_string_translation_part(m: SpecTranslatedString) -> Seq<(u32, Enc)> {
    bytes_items(1u32, m.translation.map_values(translation_encoder()))
}

/// The fields of a `TranslatedString` as they are written.
pub open spec fn translated_string_encs(m: SpecTranslatedString) -> Seq<(u32, Enc)> {
    translated_string_translation_part(m)
}

proof fn lemma_translated_string_encs(m: SpecTranslatedString)
    ensures
        translated_string_encoded(m) == enc_all(translated_string_encs(m)),
        tags_ok(translated_string_encs(m)),
{
    reveal(translated_string_encoded);
    let p0 = translated_string_translation_part(m);
    let b0 = repeated_bytes_field(1, m.translation.map_values(translation_encoder()));
    assert(enc_all(p0) == b0 && tags_ok(p0)) by {
        reveal(translated_string_translation_part);
        lemma_bytes_items(1u32, m.translation.map_values(translation_encoder()));
    }
    let r0 = p0;
    let s0 = b0;
    let l0 = b0;
    assert(translated_string_encoded(m) == l0);
    assert(translated_string_encs(m) == r0);
}

proof fn lemma_translated_string_translation_items(data: Seq<u8>, q: nat, items: Seq<SpecTranslation>, mp: SpecTranslatedString, c: nat)
    requires
        forall|i: int| 0 <= i < items.len() ==> translation_raw_ok(#[trigger] items[i], (c - 1) as nat),
        c >= 1,
        q + enc_all(bytes_items(1u32, items.map_values(translation_encoder()))).len() <= data.len() <= usize::MAX,
        data.subrange(q as int, (q + enc_all(bytes_items(1u32, items.map_values(translation_encoder()))).len()) as int) == enc_all(bytes_items(1u32, items.map_values(translation_encoder()))),
    ensures
        fold_fields(fields_at(bytes_items(1u32, items.map_values(translation_encoder())), q), mp, translated_string_step(data, c)) == Ok::<SpecTranslatedString, ErrorKind>(
            SpecTranslatedString { translation: mp.translation + items, ..mp },
        ),
    decreases items.len(),
{
    let bs = items.map_values(translation_encoder());
    let es = bytes_items(1u32, bs);
    if items.len() == 0 {
        assert(es =~= Seq::<(u32, Enc)>::empty());
        assert(mp.translation + items =~= mp.translation);
    } else {
        lemma_bytes_items(1u32, bs);
        let head = seq![(1u32, Enc::Bytes(bs[0]))];
        let rest_items = items.drop_first();
        assert(bs.drop_first() =~= rest_items.map_values(translation_encoder()));
        let rest = bytes_items(1u32, rest_items.map_values(translation_encoder()));
        lemma_enc_add(head, rest, q);
        lemma_enc_single(1u32, Enc::Bytes(bs[0]), q);
        lemma_subrange_split(data, q, enc_all(head), enc_all(rest));
        lemma_field_read(data, q, q + enc_all(head).len(), c, 1u32, Enc::Bytes(bs[0]));
        let fd = field_at(1u32, Enc::Bytes(bs[0]), q);
        lemma_fold_add(seq![fd], fields_at(rest, q + enc_all(head).len()), mp, translated_string_step(data, c));
        lemma_fold_single(fd, mp, translated_string_step(data, c));
        reveal(translated_string_applied);
        let a = q + key_bytes(1nat, 2).len() + varint_bytes(bs[0].len()).len();
        lemma_translation_decoded(data, a, items[0], c);
        let m1 = SpecTranslatedString { translation: mp.translation.push(items[0]), ..mp };
        assert(translated_string_applied(data, fd, mp, c) == Ok::<SpecTranslatedString, ErrorKind>(m1));
        lemma_translated_string_translation_items(data, q + enc_all(head).len(), rest_items, m1, c);
        assert(m1.translation + rest_items =~= mp.translation + items);
    }
}

proof fn lemma_translated_string_translation_read(data: Seq<u8>, q: nat, m: SpecTranslatedString, c: nat)
    requires
        translated_string_raw_ok(m, c),
        c + 1 >= 2,
        q + enc_all(translated_string_translation_part(m)).len() <= data.len() <= usize::MAX,
        data.subrange(q as int, (q + enc_all(translated_string_translation_part(m)).len()) as int) == enc_all(translated_string_translation_part(m)),
    ensures
        fold_fields(fields_at(translated_string_translation_part(m), q), translated_string_default(), translated_string_step(data, c)) == Ok::<SpecTranslatedString, ErrorKind>(
            SpecTranslatedString { translation: m.translation, ..translated_string_default() },
        ),
{
    let p0 = translated_string_translation_part(m);
    let q0 = q;
    let step = translated_string_step(data, c);
    let m0 = translated_string_default();
    let m1 = SpecTranslatedString { translation: m.translation, ..translated_string_default() };
    reveal(translated_string_translation_part);
    lemma_translated_string_translation_items(data, q0, m.translation, m0, c);
    assert(m0.translation + m.translation =~= m.translation);
}

proof fn lemma_translated_string_fold(data: Seq<u8>, s: nat, m: SpecTranslatedString, c: nat)
    requires
        translated_string_raw_ok(m, c),
        c + 1 >= 2,
        s + enc_all(translated_string_encs(m)).len() <= data.len() <= usize::MAX,
        data.subrange(s as int, (s + enc_all(translated_string_encs(m)).len()) as int) == enc_all(translated_string_encs(m)),
    ensures
        fold_fields(fields_at(translated_string_encs(m), s), translated_string_default(), translated_string_step(data, c)) == Ok::<
            SpecTranslatedString,
            ErrorKind,
        >(m),
{
    let es = translated_string_encs(m);
    let step = translated_string_step(data, c);
    let p0 = translated_string_translation_part(m);
    let r0 = p0;
    assert(es == r0);
    let m0 = translated_string_default();
    let q0 = s;
    let m1 = SpecTranslatedString { translation: m.translation, ..translated_string_default() };
    let q1 = q0 + enc_all(p0).len();
    lemma_translated_string_translation_read(data, q0, m, c);
    assert(m1 == m);
}

/// Decoding the bytes of a `TranslatedString` gives it back.
pub proof fn lemma_translated_string_decoded(data: Seq<u8>, s: nat, m: SpecTranslatedString, ctx: nat)
    requires
        translated_string_raw_ok(m, (ctx - 1) as nat),
        ctx >= 2,
        s + translated_string_encoded(m).len() <= data.len() <= usize::MAX,
        data.subrange(s as int, (s + translated_string_encoded(m).len()) as int) == translated_string_encoded(m),
    ensures
        translated_string_merged(data, s, s + translated_string_encoded(m).len(), ctx, translated_string_default()) == Ok::<
            SpecTranslatedString,
            ErrorKind,
        >(m),
{
    lemma_translated_string_encs(m);
    lemma_fields_read(data, s, translated_string_encs(m), (ctx - 1) as nat);
    lemma_translated_string_fold(data, s, m, (ctx - 1) as nat);
}

/// Every part of a `Translation` kept as raw bytes, at any depth, passes the
/// check that decoding gives it when the fields of the `Translation` are read
/// with budget `c`.
pub open spec fn translation_raw_ok(m: SpecTranslation, c: nat) -> bool {
    true
}

/// Field `text` of a `Translation` as it is written.
#[verifier::opaque]
pub open spec fn translation_text_part(m: SpecTranslation) -> Seq<(u32, Enc)> {
    seq![(1u32, Enc::Bytes(encode_utf8(m.text)))]
}

/// Field `language` of a `Translation` as it is written.
#[verifier::opaque]
pub open spec fn translation_language_part(m: SpecTranslation) -> Seq<(u32, Enc)> {
    match m.language {
        Some(x) => seq![(2u32, Enc::Bytes(encode_utf8(x)))],
        None => Seq::empty(),
    }
}

/// The fields of a `Translation` as they are written.
pub open spec fn translation_encs(m: SpecTranslation) -> Seq<(u32, Enc)> {
    translation_text_part(m) + (translation_language_part(m))
}

proof fn lemma_translation_encs(m: SpecTranslation)
    ensures
        translation_encoded(m) == enc_all(translation_encs(m)),
        tags_ok(translation_encs(m)),
{
    reveal(translation_encoded);
    let p0 = translation_text_part(m);
    let b0 = string_field(1, m.text);
    assert(enc_all(p0) == b0 && tags_ok(p0)) by {
        reveal(translation_text_part);
        lemma_enc_single(1u32, Enc::Bytes(encode_utf8(m.text)), 0);
        assert(enc_all(p0) =~= b0);
    }
    let p1 = translation_language_part(m);
    let b1 = match m.language {
            Some(x) => string_field(2, x),
            None => Seq::empty(),
        };
    assert(enc_all(p1) == b1 && tags_ok(p1)) by {
        reveal(translation_language_part);
        match m.language {
            Some(x) => {
                lemma_enc_single(2u32, Enc::Bytes(encode_utf8(x)), 0);
                assert(enc_all(p1) =~= b1);
            },
            None => {
                assert(enc_all(p1) =~= b1);
            },
        }
    }
    let r1 = p1;
    let s1 = b1;
    let r0 = p0 + r1;
    let s0 = b0 + s1;
    lemma_enc_add(p0, r1, 0);
    let l0 = b0;
    let l1 = l0 + b1;
    assert(l0 + s1 == s0);
    assert(translation_encoded(m) == l1);
    assert(translation_encs(m) == r0);
}

proof fn lemma_translation_text_read(data: Seq<u8>, q: nat, m: SpecTranslation, c: nat)
    requires
        translation_raw_ok(m, c),
        c + 1 >= 1,
        q + enc_all(translation_text_part(m)).len() <= data.len() <= usize::MAX,
        data.subrange(q as int, (q + enc_all(translation_text_part(m)).len()) as int) == enc_all(translation_text_part(m)),
    ensures
        fold_fields(fields_at(translation_text_part(m), q), translation_default(), translation_step(data, c)) == Ok::<SpecTranslation, ErrorKind>(
            SpecTranslation { text: m.text, ..translation_default() },
        ),
{
    let p0 = translation_text_part(m);
    let q0 = q;
    let step = translation_step(data, c);
    let m0 = translation_default();
    let m1 = SpecTranslation { text: m.text, ..translation_default() };
    reveal(translation_text_part);
    lemma_enc_single(1u32, Enc::Bytes(encode_utf8(m.text)), q0);
    lemma_field_read(data, q0, q0 + enc_all(p0).len(), c, 1u32, Enc::Bytes(encode_utf8(m.text)));
    lemma_fold_single(field_at(1u32, Enc::Bytes(encode_utf8(m.text)), q0), m0, step);
    reveal(translation_applied);
    encode_utf8_valid_utf8(m.text);
    encode_utf8_decode_utf8(m.text);
    assert(translation_applied(data, field_at(1u32, Enc::Bytes(encode_utf8(m.text)), q0), m0, c) == Ok::<SpecTranslation, ErrorKind>(m1));
}

proof fn lemma_translation_language_read(data: Seq<u8>, q: nat, m: SpecTranslation, c: nat)
    requires
        translation_raw_ok(m, c),
        c + 1 >= 1,
        q + enc_all(translation_language_part(m)).len() <= data.len() <= usize::MAX,
        data.subrange(q as int, (q + enc_all(translation_language_part(m)).len()) as int) == enc_all(translation_language_part(m)),
    ensures
        fold_fields(fields_at(translation_language_part(m), q), SpecTranslation { text: m.text, ..translation_default() }, translation_step(data, c)) == Ok::<SpecTranslation, ErrorKind>(
            SpecTranslation { text: m.text, language: m.language, ..translation_default() },
        ),
{
    let p1 = translation_language_part(m);
    let q1 = q;
    let step = translation_step(data, c);
    let m1 = SpecTranslation { text: m.text, ..translation_default() };
    let m2 = SpecTranslation { text: m.text, language: m.language, ..translation_default() };
    reveal(translation_language_part);
    match m.language {
        Some(x) => {
            lemma_enc_single(2u32, Enc::Bytes(encode_utf8(x)), q1);
            lemma_field_read(data, q1, q1 + enc_all(p1).len(), c, 2u32, Enc::Bytes(encode_utf8(x)));
            lemma_fold_single(field_at(2u32, Enc::Bytes(encode_utf8(x)), q1), m1, step);
            reveal(translation_applied);
            encode_utf8_valid_utf8(x);
            encode_utf8_decode_utf8(x);
            assert(translation_applied(data, field_at(2u32, Enc::Bytes(encode_utf8(x)), q1), m1, c) == Ok::<SpecTranslation, ErrorKind>(m2));
        },
        None => {
                assert(p1 =~= Seq::<(u32, Enc)>::empty());
            },
    }
}

proof fn lemma_translation_fold(data: Seq<u8>, s: nat, m: SpecTranslation, c: nat)
    requires
        translation_raw_ok(m, c),
        c + 1 >= 1,
        s + enc_all(translation_encs(m)).len() <= data.len() <= usize::MAX,
        data.subrange(s as int, (s + enc_all(translation_encs(m)).len()) as int) == enc_all(translation_encs(m)),
    ensures
        fold_fields(fields_at(translation_encs(m), s), translation_default(), translation_step(data, c)) == Ok::<
            SpecTranslation,
            ErrorKind,
        >(m),
{
    let es = translation_encs(m);
    let step = translation_step(data, c);
    let p0 = translation_text_part(m);
    let p1 = translation_language_part(m);
    let r1 = p1;
    let r0 = p0 + r1;
    assert(es == r0);
    let m0 = translation_default();
    let q0 = s;
    let m1 = SpecTranslation { text: m.text, ..translation_default() };
    let q1 = q0 + enc_all(p0).len();
    assert(fold_fields(fields_at(r0, q0), m0, step) == fold_fields(fields_at(r1, q1), m1, step)
        && q1 + enc_all(r1).len() <= data.len()
        && data.subrange(q1 as int, (q1 + enc_all(r1).len()) as int) == enc_all(r1)) by {
        lemma_enc_add(p0, r1, q0);
        lemma_subrange_split(data, q0, enc_all(p0), enc_all(r1));
        lemma_fold_add(fields_at(p0, q0), fields_at(r1, q1), m0, step);
        lemma_translation_text_read(data, q0, m, c);
    }
    let m2 = SpecTranslation { text: m.text, language: m.language, ..translation_default() };
    let q2 = q1 + enc_all(p1).len();
    lemma_translation_language_read(data, q1, m, c);
    assert(m2 == m);
}

/// Decoding the bytes of a `Translation` gives it back.
pub proof fn lemma_translation_decoded(data: Seq<u8>, s: nat, m: SpecTranslation, ctx: nat)
    requires
        translation_raw_ok(m, (ctx - 1) as nat),
        ctx >= 1,
        s + translation_encoded(m).len() <= data.len() <= usize::MAX,
        data.subrange(s as int, (s + translation_encoded(m).len()) as int) == translation_encoded(m),
    ensures
        translation_merged(data, s, s + translation_encoded(m).len(), ctx, translation_default()) == Ok::<
            SpecTranslation,
            ErrorKind,
        >(m),
{
    lemma_translation_encs(m);
    lemma_fields_read(data, s, translation_encs(m), (ctx - 1) as nat);
    lemma_translation_fold(data, s, m, (ctx - 1) as nat);
}

/// Every part of a `TripModifications` kept as raw bytes, at any depth, passes the
/// check that decoding gives it when the fields of the `TripModifications` are read
/// with budget `c`.
pub open spec fn trip_modifications_raw_ok(m: SpecTripModifications, c: nat) -> bool {
    (forall|i: int| 0 <= i < m.selected_trips.len() ==> selected_trips_raw_ok(#[trigger] m.selected_trips[i], (c - 1) as nat))
    && (forall|i: int| 0 <= i < m.modifications.len() ==> modification_raw_ok(#[trigger] m.modifications[i], (c - 1) as nat))
}

/// Field `selected_trips` of a `TripModifications` as it is written.
#[verifier::opaque]
pub open spec fn trip_modifications_selected_trips_part(m: SpecTripModifications) -> Seq<(u32, Enc)> {
    bytes_items(1u32, m.selected_trips.map_values(selected_trips_encoder()))
}

/// Field `start_times` of a `TripModifications` as it is written.
#[verifier::opaque]
pub open spec fn trip_modifications_start_times_part(m: SpecTripModifications) -> Seq<(u32, Enc)> {
    bytes_items(2u32, m.start_times.map_values(utf8_encoder()))
}

/// Field `service_dates` of a `TripModifications` as it is written.
#[verifier::opaque]
pub open spec fn trip_modifications_service_dates_part(m: SpecTripModifications) -> Seq<(u32, Enc)> {
    bytes_items(3u32, m.service_dates.map_values(utf8_encoder()))
}

/// Field `modifications` of a `TripModifications` as it is written.
#[verifier::opaque]
pub open spec fn trip_modifications_modifications_part(m: SpecTripModifications) -> Seq<(u32, Enc)> {
    bytes_items(4u32, m.modifications.map_values(modification_encoder()))
}

/// The fields of a `TripModifications` as they are written.
pub open spec fn trip_modifications_encs(m: SpecTripModifications) -> Seq<(u32, Enc)> {
    trip_modifications_selected_trips_part(m) + (trip_modifications_start_times_part(m) + (trip_modifications_service_dates_part(m) + (trip_modifications_modifications_part(m))))
}

proof fn lemma_trip_modifications_encs(m: SpecTripModifications)
    ensures
        trip_modifications_encoded(m) == enc_all(trip_modifications_encs(m)),
        tags_ok(trip_modifications_encs(m)),
{
    reveal(trip_modifications_encoded);
    let p0 = trip_modifications_selected_trips_part(m);
    let b0 = repeated_bytes_field(1, m.selected_trips.map_values(selected_trips_encoder()));
    assert(enc_all(p0) == b0 && tags_ok(p0)) by {
        reveal(trip_modifications_selected_trips_part);
        lemma_bytes_items(1u32, m.selected_trips.map_values(selected_trips_encoder()));
    }
    let p1 = trip_modifications_start_times_part(m);
    let b1 = repeated_bytes_field(2, m.start_times.map_values(utf8_encoder()));
    assert(enc_all(p1) == b1 && tags_ok(p1)) by {
        reveal(trip_modifications_start_times_part);
        lemma_bytes_items(2u32, m.start_times.map_values(utf8_encoder()));
    }
    let p2 = trip_modifications_service_dates_part(m);
    let b2 = repeated_bytes_field(3, m.service_dates.map_values(utf8_encoder()));
    assert(enc_all(p2) == b2 && tags_ok(p2)) by {
        reveal(trip_modifications_service_dates_part);
        lemma_bytes_items(3u32, m.service_dates.map_values(utf8_encoder()));
    }
    let p3 = trip_modifications_modifications_part(m);
    let b3 = repeated_bytes_field(4, m.modifications.map_values(modification_encoder()));
    assert(enc_all(p3) == b3 && tags_ok(p3)) by {
        reveal(trip_modifications_modifications_part);
        lemma_bytes_items(4u32, m.modifications.map_values(modification_encoder()));
    }
    let r3 = p3;
    let s3 = b3;
    let r2 = p2 + r3;
    let s2 = b2 + s3;
    lemma_enc_add(p2, r3, 0);
    let r1 = p1 + r2;
    let s1 = b1 + s2;
    lemma_enc_add(p1, r2, 0);
    let r0 = p0 + r1;
    let s0 = b0 + s1;
    lemma_enc_add(p0, r1, 0);
    let l0 = b0;
    let l1 = l0 + b1;
    let l2 = l1 + b2;
    let l3 = l2 + b3;
    assert(l0 + s1 == s0);
    lemma_add_assoc(l0, b1, s2);
    assert(l1 + s2 == s0);
    lemma_add_assoc(l1, b2, s3);
    assert(l2 + s3 == s0);
    assert(trip_modifications_encoded(m) == l3);
    assert(trip_modifications_encs(m) == r0);
}

proof fn lemma_trip_modifications_selected_trips_items(data: Seq<u8>, q: nat, items: Seq<SpecSelectedTrips>, mp: SpecTripModifications, c: nat)
    requires
        forall|i: int| 0 <= i < items.len() ==> selected_trips_raw_ok(#[trigger] items[i], (c - 1) as nat),
        c >= 1,
        q + enc_all(bytes_items(1u32, items.map_values(selected_trips_encoder()))).len() <= data.len() <= usize::MAX,
        data.subrange(q as int, (q + enc_all(bytes_items(1u32, items.map_values(selected_trips_encoder()))).len()) as int) == enc_all(bytes_items(1u32, items.map_values(selected_trips_encoder()))),
    ensures
        fold_fields(fields_at(bytes_items(1u32, items.map_values(selected_trips_encoder())), q), mp, trip_modifications_step(data, c)) == Ok::<SpecTripModifications, ErrorKind>(
            SpecTripModifications { selected_trips: mp.selected_trips + items, ..mp },
        ),
    decreases items.len(),
{
    let bs = items.map_values(selected_trips_encoder());
    let es = bytes_items(1u32, bs);
    if items.len() == 0 {
        assert(es =~= Seq::<(u32, Enc)>::empty());
        assert(mp.selected_trips + items =~= mp.selected_trips);
    } else {
        lemma_bytes_items(1u32, bs);
        let head = seq![(1u32, Enc::Bytes(bs[0]))];
        let rest_items = items.drop_first();
        assert(bs.drop_first() =~= rest_items.map_values(selected_trips_encoder()));
        let rest = bytes_items(1u32, rest_items.map_values(selected_trips_encoder()));
        lemma_enc_add(head, rest, q);
        lemma_enc_single(1u32, Enc::Bytes(bs[0]), q);
        lemma_subrange_split(data, q, enc_all(head), enc_all(rest));
        lemma_field_read(data, q, q + enc_all(head).len(), c, 1u32, Enc::Bytes(bs[0]));
        let fd = field_at(1u32, Enc::Bytes(bs[0]), q);
        lemma_fold_add(seq![fd], fields_at(rest, q + enc_all(head).len()), mp, trip_modifications_step(data, c));
        lemma_fold_single(fd, mp, trip_modifications_step(data, c));
        reveal(trip_modifications_applied);
        let a = q + key_bytes(1nat, 2).len() + varint_bytes(bs[0].len()).len();
        lemma_selected_trips_decoded(data, a, items[0], c);
        let m1 = SpecTripModifications { selected_trips: mp.selected_trips.push(items[0]), ..mp };
        assert(trip_modifications_applied(data, fd, mp, c) == Ok::<SpecTripModifications, ErrorKind>(m1));
        lemma_trip_modifications_selected_trips_items(data, q + enc_all(head).len(), rest_items, m1, c);
        assert(m1.selected_trips + rest_items =~= mp.selected_trips + items);
    }
}

proof fn lemma_trip_modifications_start_times_items(data: Seq<u8>, q: nat, items: Seq<Seq<char>>, mp: SpecTripModifications, c: nat)
    requires
        q + enc_all(bytes_items(2u32, items.map_values(utf8_encoder()))).len() <= data.len() <= usize::MAX,
        data.subrange(q as int, (q + enc_all(bytes_items(2u32, items.map_values(utf8_encoder()))).len()) as int) == enc_all(bytes_items(2u32, items.map_values(utf8_encoder()))),
    ensures
        fold_fields(fields_at(bytes_items(2u32, items.map_values(utf8_encoder())), q), mp, trip_modifications_step(data, c)) == Ok::<SpecTripModifications, ErrorKind>(
            SpecTripModifications { start_times: mp.start_times + items, ..mp },
        ),
    decreases items.len(),
{
    let bs = items.map_values(utf8_encoder());
    let es = bytes_items(2u32, bs);
    if items.len() == 0 {
        assert(es =~= Seq::<(u32, Enc)>::empty());
        assert(mp.start_times + items =~= mp.start_times);
    } else {
        lemma_bytes_items(2u32, bs);
        let head = seq![(2u32, Enc::Bytes(bs[0]))];
        let rest_items = items.drop_first();
        assert(bs.drop_first() =~= rest_items.map_values(utf8_encoder()));
        let rest = bytes_items(2u32, rest_items.map_values(utf8_encoder()));
        lemma_enc_add(head, rest, q);
        lemma_enc_single(2u32, Enc::Bytes(bs[0]), q);
        lemma_subrange_split(data, q, enc_all(head), enc_all(rest));
        lemma_field_read(data, q, q + enc_all(head).len(), c, 2u32, Enc::Bytes(bs[0]));
        let fd = field_at(2u32, Enc::Bytes(bs[0]), q);
        lemma_fold_add(seq![fd], fields_at(rest, q + enc_all(head).len()), mp, trip_modifications_step(data, c));
        lemma_fold_single(fd, mp, trip_modifications_step(data, c));
        reveal(trip_modifications_applied);
        let a = q + key_bytes(2nat, 2).len() + varint_bytes(bs[0].len()).len();
        encode_utf8_valid_utf8(items[0]);
        encode_utf8_decode_utf8(items[0]);
        let m1 = SpecTripModifications { start_times: mp.start_times.push(items[0]), ..mp };
        assert(trip_modifications_applied(data, fd, mp, c) == Ok::<SpecTripModifications, ErrorKind>(m1));
        lemma_trip_modifications_start_times_items(data, q + enc_all(head).len(), rest_items, m1, c);
        assert(m1.start_times + rest_items =~= mp.start_times + items);
    }
}

proof fn lemma_trip_modifications_service_dates_items(data: Seq<u8>, q: nat, items: Seq<Seq<char>>, mp: SpecTripModifications, c: nat)
    requires
        q + enc_all(bytes_items(3u32, items.map_values(utf8_encoder()))).len() <= data.len() <= usize::MAX,
        data.subrange(q as int, (q + enc_all(bytes_items(3u32, items.map_values(utf8_encoder()))).len()) as int) == enc_all(bytes_items(3u32, items.map_values(utf8_encoder()))),
    ensures
        fold_fields(fields_at(bytes_items(3u32, items.map_values(utf8_encoder())), q), mp, trip_modifications_step(data, c)) == Ok::<SpecTripModifications, ErrorKind>(
            SpecTripModifications { service_dates: mp.service_dates + items, ..mp },
        ),
    decreases items.len(),
{
    let bs = items.map_values(utf8_encoder());
    let es = bytes_items(3u32, bs);
    if items.len() == 0 {
        assert(es =~= Seq::<(u32, Enc)>::empty());
        assert(mp.service_dates + items =~= mp.service_dates);
    } else {
        lemma_bytes_items(3u32, bs);
        let head = seq![(3u32, Enc::Bytes(bs[0]))];
        let rest_items = items.drop_first();
        assert(bs.drop_first() =~= rest_items.map_values(utf8_encoder()));
        let rest = bytes_items(3u32, rest_items.map_values(utf8_encoder()));
        lemma_enc_add(head, rest, q);
        lemma_enc_single(3u32, Enc::Bytes(bs[0]), q);
        lemma_subrange_split(data, q, enc_all(head), enc_all(rest));
        lemma_field_read(data, q, q + enc_all(head).len(), c, 3u32, Enc::Bytes(bs[0]));
        let fd = field_at(3u32, Enc::Bytes(bs[0]), q);
        lemma_fold_add(seq![fd], fields_at(rest, q + enc_all(head).len()), mp, trip_modifications_step(data, c));
        lemma_fold_single(fd, mp, trip_modifications_step(data, c));
        reveal(trip_modifications_applied);
        let a = q + key_bytes(3nat, 2).len() + varint_bytes(bs[0].len()).len();
        encode_utf8_valid_utf8(items[0]);
        encode_utf8_decode_utf8(items[0]);
        let m1 = SpecTripModifications { service_dates: mp.service_dates.push(items[0]), ..mp };
        assert(trip_modifications_applied(data, fd, mp, c) == Ok::<SpecTripModifications, ErrorKind>(m1));
        lemma_trip_modifications_service_dates_items(data, q + enc_all(head).len(), rest_items, m1, c);
        assert(m1.service_dates + rest_items =~= mp.service_dates + items);
    }
}

proof fn lemma_trip_modifications_modifications_items(data: Seq<u8>, q: nat, items: Seq<SpecModification>, mp: SpecTripModifications, c: nat)
    requires
        forall|i: int| 0 <= i < items.len() ==> modification_raw_ok(#[trigger] items[i], (c - 1) as nat),
        c >= 2,
        q + enc_all(bytes_items(4u32, items.map_values(modification_encoder()))).len() <= data.len() <= usize::MAX,
        data.subrange(q as int, (q + enc_all(bytes_items(4u32, items.map_values(modification_encoder()))).len()) as int) == enc_all(bytes_items(4u32, items.map_values(modification_encoder()))),
    ensures
        fold_fields(fields_at(bytes_items(4u32, items.map_values(modification_encoder())), q), mp, trip_modifications_step(data, c)) == Ok::<SpecTripModifications, ErrorKind>(
            SpecTripModifications { modifications: mp.modifications + items, ..mp },
        ),
    decreases items.len(),
{
    let bs = items.map_values(modification_encoder());
    let es = bytes_items(4u32, bs);
    if items.len() == 0 {
        assert(es =~= Seq::<(u32, Enc)>::empty());
        assert(mp.modifications + items =~= mp.modifications);
    } else {
        lemma_bytes_items(4u32, bs);
        let head = seq![(4u32, Enc::Bytes(bs[0]))];
        let rest_items = items.drop_first();
        assert(bs.drop_first() =~= rest_items.map_values(modification_encoder()));
        let rest = bytes_items(4u32, rest_items.map_values(modification_encoder()));
        lemma_enc_add(head, rest, q);
        lemma_enc_single(4u32, Enc::Bytes(bs[0]), q);
        lemma_subrange_split(data, q, enc_all(head), enc_all(rest));
        lemma_field_read(data, q, q + enc_all(head).len(), c, 4u32, Enc::Bytes(bs[0]));
        let fd = field_at(4u32, Enc::Bytes(bs[0]), q);
        lemma_fold_add(seq![fd], fields_at(rest, q + enc_all(head).len()), mp, trip_modifications_step(data, c));
        lemma_fold_single(fd, mp, trip_modifications_step(data, c));
        reveal(trip_modifications_applied);
        let a = q + key_bytes(4nat, 2).len() + varint_bytes(bs[0].len()).len();
        lemma_modification_decoded(data, a, items[0], c);
        let m1 = SpecTripModifications { modifications: mp.modifications.push(items[0]), ..mp };
        assert(trip_modifications_applied(data, fd, mp, c) == Ok::<SpecTripModifications, ErrorKind>(m1));
        lemma_trip_modifications_modifications_items(data, q + enc_all(head).len(), rest_items, m1, c);
        assert(m1.modifications + rest_items =~= mp.modifications + items);
    }
}

proof fn lemma_trip_modifications_selected_trips_read(data: Seq<u8>, q: nat, m: SpecTripModifications, c: nat)
    requires
        trip_modifications_raw_ok(m, c),
        c + 1 >= 3,
        q + enc_all(trip_modifications_selected_trips_part(m)).len() <= data.len() <= usize::MAX,
        data.subrange(q as int, (q + enc_all(trip_modifications_selected_trips_part(m)).len()) as int) == enc_all(trip_modifications_selected_trips_part(m)),
    ensures
        fold_fields(fields_at(trip_modifications_selected_trips_part(m), q), trip_modifications_default(), trip_modifications_step(data, c)) == Ok::<SpecTripModifications, ErrorKind>(
            SpecTripModifications { selected_trips: m.selected_trips, ..trip_modifications_default() },
        ),
{
    let p0 = trip_modifications_selected_trips_part(m);
    let q0 = q;
    let step = trip_modifications_step(data, c);
    let m0 = trip_modifications_default();
    let m1 = SpecTripModifications { selected_trips: m.selected_trips, ..trip_modifications_default() };
    reveal(trip_modifications_selected_trips_part);
    lemma_trip_modifications_selected_trips_items(data, q0, m.selected_trips, m0, c);
    assert(m0.selected_trips + m.selected_trips =~= m.selected_trips);
}

proof fn lemma_trip_modifications_start_times_read(data: Seq<u8>, q: nat, m: SpecTripModifications, c: nat)
    requires
        trip_modifications_raw_ok(m, c),
        c + 1 >= 3,
        q + enc_all(trip_modifications_start_times_part(m)).len() <= data.len() <= usize::MAX,
        data.subrange(q as int, (q + enc_all(trip_modifications_start_times_part(m)).len()) as int) == enc_all(trip_modifications_start_times_part(m)),
    ensures
        fold_fields(fields_at(trip_modifications_start_times_part(m), q), SpecTripModifications { selected_trips: m.selected_trips, ..trip_modifications_default() }, trip_modifications_step(data, c)) == Ok::<SpecTripModifications, ErrorKind>(
            SpecTripModifications { selected_trips: m.selected_trips, start_times: m.start_times, ..trip_modifications_default() },
        ),
{
    let p1 = trip_modifications_start_times_part(m);
    let q1 = q;
    let step = trip_modifications_step(data, c);
    let m1 = SpecTripModifications { selected_trips: m.selected_trips, ..trip_modifications_default() };
    let m2 = SpecTripModifications { selected_trips: m.selected_trips, start_times: m.start_times, ..trip_modifications_default() };
    reveal(trip_modifications_start_times_part);
    lemma_trip_modifications_start_times_items(data, q1, m.start_times, m1, c);
    assert(m1.start_times + m.start_times =~= m.start_times);
}

proof fn lemma_trip_modifications_service_dates_read(data: Seq<u8>, q: nat, m: SpecTripModifications, c: nat)
    requires
        trip_modifications_raw_ok(m, c),
        c + 1 >= 3,
        q + enc_all(trip_modifications_service_dates_part(m)).len() <= data.len() <= usize::MAX,
        data.subrange(q as int, (q + enc_all(trip_modifications_service_dates_part(m)).len()) as int) == enc_all(trip_modifications_service_dates_part(m)),
    ensures
        fold_fields(fields_at(trip_modifications_service_dates_part(m), q), SpecTripModifications { selected_trips: m.selected_trips, start_times: m.start_times, ..trip_modifications_default() }, trip_modifications_step(data, c)) == Ok::<SpecTripModifications, ErrorKind>(
            SpecTripModifications { selected_trips: m.selected_trips, start_times: m.start_times, service_dates: m.service_dates, ..trip_modifications_default() },
        ),
{
    let p2 = trip_modifications_service_dates_part(m);
    let q2 = q;
    let step = trip_modifications_step(data, c);
    let m2 = SpecTripModifications { selected_trips: m.selected_trips, start_times: m.start_times, ..trip_modifications_default() };
    let m3 = SpecTripModifications { selected_trips: m.selected_trips, start_times: m.start_times, service_dates: m.service_dates, ..trip_modifications_default() };
    reveal(trip_modifications_service_dates_part);
    lemma_trip_modifications_service_dates_items(data, q2, m.service_dates, m2, c);
    assert(m2.service_dates + m.service_dates =~= m.service_dates);
}

proof fn lemma_trip_modifications_modifications_read(data: Seq<u8>, q: nat, m: SpecTripModifications, c: nat)
    requires
        trip_modifications_raw_ok(m, c),
        c + 1 >= 3,
        q + enc_all(trip_modifications_modifications_part(m)).len() <= data.len() <= usize::MAX,
        data.subrange(q as int, (q + enc_all(trip_modifications_modifications_part(m)).len()) as int) == enc_all(trip_modifications_modifications_part(m)),
    ensures
        fold_fields(fields_at(trip_modifications_modifications_part(m), q), SpecTripModifications { selected_trips: m.selected_trips, start_times: m.start_times, service_dates: m.service_dates, ..trip_modifications_default() }, trip_modifications_step(data, c)) == Ok::<SpecTripModifications, ErrorKind>(
            SpecTripModifications { selected_trips: m.selected_trips, start_times: m.start_times, service_dates: m.service_dates, modifications: m.modifications, ..trip_modifications_default() },
        ),
{
    let p3 = trip_modifications_modifications_part(m);
    let q3 = q;
    let step = trip_modifications_step(data, c);
    let m3 = SpecTripModifications { selected_trips: m.selected_trips, start_times: m.start_times, service_dates: m.service_dates, ..trip_modifications_default() };
    let m4 = SpecTripModifications { selected_trips: m.selected_trips, start_times: m.start_times, service_dates: m.service_dates, modifications: m.modifications, ..trip_modifications_default() };
    reveal(trip_modifications_modifications_part);
    lemma_trip_modifications_modifications_items(data, q3, m.modifications, m3, c);
    assert(m3.modifications + m.modifications =~= m.modifications);
}

proof fn lemma_trip_modifications_fold(data: Seq<u8>, s: nat, m: SpecTripModifications, c: nat)
    requires
        trip_modifications_raw_ok(m, c),
        c + 1 >= 3,
        s + enc_all(trip_modifications_encs(m)).len() <= data.len() <= usize::MAX,
        data.subrange(s as int, (s + enc_all(trip_modifications_encs(m)).len()) as int) == enc_all(trip_modifications_encs(m)),
    ensures
        fold_fields(fields_at(trip_modifications_encs(m), s), trip_modifications_default(), trip_modifications_step(data, c)) == Ok::<
            SpecTripModifications,
            ErrorKind,
        >(m),
{
    let es = trip_modifications_encs(m);
    let step = trip_modifications_step(data, c);
    let p0 = trip_modifications_selected_trips_part(m);
    let p1 = trip_modifications_start_times_part(m);
    let p2 = trip_modifications_service_dates_part(m);
    let p3 = trip_modifications_modifications_part(m);
    let r3 = p3;
    let r2 = p2 + r3;
    let r1 = p1 + r2;
    let r0 = p0 + r1;
    assert(es == r0);
    let m0 = trip_modifications_default();
    let q0 = s;
    let m1 = SpecTripModifications { selected_trips: m.selected_trips, ..trip_modifications_default() };
    let q1 = q0 + enc_all(p0).len();
    assert(fold_fields(fields_at(r0, q0), m0, step) == fold_fields(fields_at(r1, q1), m1, step)
        && q1 + enc_all(r1).len() <= data.len()
        && data.subrange(q1 as int, (q1 + enc_all(r1).len()) as int) == enc_all(r1)) by {
        lemma_enc_add(p0, r1, q0);
        lemma_subrange_split(data, q0, enc_all(p0), enc_all(r1));
        lemma_fold_add(fields_at(p0, q0), fields_at(r1, q1), m0, step);
        lemma_trip_modifications_selected_trips_read(data, q0, m, c);
    }
    let m2 = SpecTripModifications { selected_trips: m.selected_trips, start_times: m.start_times, ..trip_modifications_default() };
    let q2 = q1 + enc_all(p1).len();
    assert(fold_fields(fields_at(r1, q1), m1, step) == fold_fields(fields_at(r2, q2), m2, step)
        && q2 + enc_all(r2).len() <= data.len()
        && data.subrange(q2 as int, (q2 + enc_all(r2).len()) as int) == enc_all(r2)) by {
        lemma_enc_add(p1, r2, q1);
        lemma_subrange_split(data, q1, enc_all(p1), enc_all(r2));
        lemma_fold_add(fields_at(p1, q1), fields_at(r2, q2), m1, step);
        lemma_trip_modifications_start_times_read(data, q1, m, c);
    }
    let m3 = SpecTripModifications { selected_trips: m.selected_trips, start_times: m.start_times, service_dates: m.service_dates, ..trip_modifications_default() };
    let q3 = q2 + enc_all(p2).len();
    assert(fold_fields(fields_at(r2, q2), m2, step) == fold_fields(fields_at(r3, q3), m3, step)
        && q3 + enc_all(r3).len() <= data.len()
        && data.subrange(q3 as int, (q3 + enc_all(r3).len()) as int) == enc_all(r3)) by {
        lemma_enc_add(p2, r3, q2);
        lemma_subrange_split(data, q2, enc_all(p2), enc_all(r3));
        lemma_fold_add(fields_at(p2, q2), fields_at(r3, q3), m2, step);
        lemma_trip_modifications_service_dates_read(data, q2, m, c);
    }
    let m4 = SpecTripModifications { selected_trips: m.selected_trips, start_times: m.start_times, service_dates: m.service_dates, modifications: m.modifications, ..trip_modifications_default() };
    let q4 = q3 + enc_all(p3).len();
    lemma_trip_modifications_modifications_read(data, q3, m, c);
    assert(m4 == m);
}

/// Decoding the bytes of a `TripModifications` gives it back.
pub proof fn lemma_trip_modifications_decoded(data: Seq<u8>, s: nat, m: SpecTripModifications, ctx: nat)
    requires
        trip_modifications_raw_ok(m, (ctx - 1) as nat),
        ctx >= 3,
        s + trip_modifications_encoded(m).len() <= data.len() <= usize::MAX,
        data.subrange(s as int, (s + trip_modifications_encoded(m).len()) as int) == trip_modifications_encoded(m),
    ensures
        trip_modifications_merged(data, s, s + trip_modifications_encoded(m).len(), ctx, trip_modifications_default()) == Ok::<
            SpecTripModifications,
            ErrorKind,
        >(m),
{
    lemma_trip_modifications_encs(m);
    lemma_fields_read(data, s, trip_modifications_encs(m), (ctx - 1) as nat);
    lemma_trip_modifications_fold(data, s, m, (ctx - 1) as nat);
}

/// Every part of a `SelectedTrips` kept as raw bytes, at any depth, passes the
/// check that decoding gives it when the fields of the `SelectedTrips` are read
/// with budget `c`.
pub open spec fn selected_trips_raw_ok(m: SpecSelectedTrips, c: nat) -> bool {
    true
}

/// Field `trip_ids` of a `SelectedTrips` as it is written.
#[verifier::opaque]
pub open spec fn selected_trips_trip_ids_part(m: SpecSelectedTrips) -> Seq<(u32, Enc)> {
    bytes_items(1u32, m.trip_ids.map_values(utf8_encoder()))
}

/// Field `shape_id` of a `SelectedTrips` as it is written.
#[verifier::opaque]
pub open spec fn selected_trips_shape_id_part(m: SpecSelectedTrips) -> Seq<(u32, Enc)> {
    match m.shape_id {
        Some(x) => seq![(2u32, Enc::Bytes(encode_utf8(x)))],
        None => Seq::empty(),
    }
}

/// The fields of a `SelectedTrips` as they are written.
pub open spec fn selected_trips_encs(m: SpecSelectedTrips) -> Seq<(u32, Enc)> {
    selected_trips_trip_ids_part(m) + (selected_trips_shape_id_part(m))
}

proof fn lemma_selected_trips_encs(m: SpecSelectedTrips)
    ensures
        selected_trips_encoded(m) == enc_all(selected_trips_encs(m)),
        tags_ok(selected_trips_encs(m)),
{
    reveal(selected_trips_encoded);
    let p0 = selected_trips_trip_ids_part(m);
    let b0 = repeated_bytes_field(1, m.trip_ids.map_values(utf8_encoder()));
    assert(enc_all(p0) == b0 && tags_ok(p0)) by {
        reveal(selected_trips_trip_ids_part);
        lemma_bytes_items(1u32, m.trip_ids.map_values(utf8_encoder()));
    }
    let p1 = selected_trips_shape_id_part(m);
    let b1 = match m.shape_id {
            Some(x) => string_field(2, x),
            None => Seq::empty(),
        };
    assert(enc_all(p1) == b1 && tags_ok(p1)) by {
        reveal(selected_trips_shape_id_part);
        match m.shape_id {
            Some(x) => {
                lemma_enc_single(2u32, Enc::Bytes(encode_utf8(x)), 0);
                assert(enc_all(p1) =~= b1);
            },
            None => {
                assert(enc_all(p1) =~= b1);
            },
        }
    }
    let r1 = p1;
    let s1 = b1;
    let r0 = p0 + r1;
    let s0 = b0 + s1;
    lemma_enc_add(p0, r1, 0);
    let l0 = b0;
    let l1 = l0 + b1;
    assert(l0 + s1 == s0);
    assert(selected_trips_encoded(m) == l1);
    assert(selected_trips_encs(m) == r0);
}

proof fn lemma_selected_trips_trip_ids_items(data: Seq<u8>, q: nat, items: Seq<Seq<char>>, mp: SpecSelectedTrips, c: nat)
    requires
        q + enc_all(bytes_items(1u32, items.map_values(utf8_encoder()))).len() <= data.len() <= usize::MAX,
        data.subrange(q as int, (q + enc_all(bytes_items(1u32, items.map_values(utf8_encoder()))).len()) as int) == enc_all(bytes_items(1u32, items.map_values(utf8_encoder()))),
    ensures
        fold_fields(fields_at(bytes_items(1u32, items.map_values(utf8_encoder())), q), mp, selected_trips_step(data, c)) == Ok::<SpecSelectedTrips, ErrorKind>(
            SpecSelectedTrips { trip_ids: mp.trip_ids + items, ..mp },
        ),
    decreases items.len(),
{
    let bs = items.map_values(utf8_encoder());
    let es = bytes_items(1u32, bs);
    if items.len() == 0 {
        assert(es =~= Seq::<(u32, Enc)>::empty());
        assert(mp.trip_ids + items =~= mp.trip_ids);
    } else {
        lemma_bytes_items(1u32, bs);
        let head = seq![(1u32, Enc::Bytes(bs[0]))];
        let rest_items = items.drop_first();
        assert(bs.drop_first() =~= rest_items.map_values(utf8_encoder()));
        let rest = bytes_items(1u32, rest_items.map_values(utf8_encoder()));
        lemma_enc_add(head, rest, q);
        lemma_enc_single(1u32, Enc::Bytes(bs[0]), q);
        lemma_subrange_split(data, q, enc_all(head), enc_all(rest));
        lemma_field_read(data, q, q + enc_all(head).len(), c, 1u32, Enc::Bytes(bs[0]));
        let fd = field_at(1u32, Enc::Bytes(bs[0]), q);
        lemma_fold_add(seq![fd], fields_at(rest, q + enc_all(head).len()), mp, selected_trips_step(data, c));
        lemma_fold_single(fd, mp, selected_trips_step(data, c));
        reveal(selected_trips_applied);
        let a = q + key_bytes(1nat, 2).len() + varint_bytes(bs[0].len()).len();
        encode_utf8_valid_utf8(items[0]);
        encode_utf8_decode_utf8(items[0]);
        let m1 = SpecSelectedTrips { trip_ids: mp.trip_ids.push(items[0]), ..mp };
        assert(selected_trips_applied(data, fd, mp, c) == Ok::<SpecSelectedTrips, ErrorKind>(m1));
        lemma_selected_trips_trip_ids_items(data, q + enc_all(head).len(), rest_items, m1, c);
        assert(m1.trip_ids + rest_items =~= mp.trip_ids + items);
    }
}

proof fn lemma_selected_trips_trip_ids_read(data: Seq<u8>, q: nat, m: SpecSelectedTrips, c: nat)
    requires
        selected_trips_raw_ok(m, c),
        c + 1 >= 1,
        q + enc_all(selected_trips_trip_ids_part(m)).len() <= data.len() <= usize::MAX,
        data.subrange(q as int, (q + enc_all(selected_trips_trip_ids_part(m)).len()) as int) == enc_all(selected_trips_trip_ids_part(m)),
    ensures
        fold_fields(fields_at(selected_trips_trip_ids_part(m), q), selected_trips_default(), selected_trips_step(data, c)) == Ok::<SpecSelectedTrips, ErrorKind>(
            SpecSelectedTrips { trip_ids: m.trip_ids, ..selected_trips_default() },
        ),
{
    let p0 = selected_trips_trip_ids_part(m);
    let q0 = q;
    let step = selected_trips_step(data, c);
    let m0 = selected_trips_default();
    let m1 = SpecSelectedTrips { trip_ids: m.trip_ids, ..selected_trips_default() };
    reveal(selected_trips_trip_ids_part);
    lemma_selected_trips_trip_ids_items(data, q0, m.trip_ids, m0, c);
    assert(m0.trip_ids + m.trip_ids =~= m.trip_ids);
}

proof fn lemma_selected_trips_shape_id_read(data: Seq<u8>, q: nat, m: SpecSelectedTrips, c: nat)
    requires
        selected_trips_raw_ok(m, c),
        c + 1 >= 1,
        q + enc_all(selected_trips_shape_id_part(m)).len() <= data.len() <= usize::MAX,
        data.subrange(q as int, (q + enc_all(selected_trips_shape_id_part(m)).len()) as int) == enc_all(selected_trips_shape_id_part(m)),
    ensures
        fold_fields(fields_at(selected_trips_shape_id_part(m), q), SpecSelectedTrips { trip_ids: m.trip_ids, ..selected_trips_default() }, selected_trips_step(data, c)) == Ok::<SpecSelectedTrips, ErrorKind>(
            SpecSelectedTrips { trip_ids: m.trip_ids, shape_id: m.shape_id, ..selected_trips_default() },
        ),
{
    let p1 = selected_trips_shape_id_part(m);
    let q1 = q;
    let step = selected_trips_step(data, c);
    let m1 = SpecSelectedTrips { trip_ids: m.trip_ids, ..selected_trips_default() };
    let m2 = SpecSelectedTrips { trip_ids: m.trip_ids, shape_id: m.shape_id, ..selected_trips_default() };
    reveal(selected_trips_shape_id_part);
    match m.shape_id {
        Some(x) => {
            lemma_enc_single(2u32, Enc::Bytes(encode_utf8(x)), q1);
            lemma_field_read(data, q1, q1 + enc_all(p1).len(), c, 2u32, Enc::Bytes(encode_utf8(x)));
            lemma_fold_single(field_at(2u32, Enc::Bytes(encode_utf8(x)), q1), m1, step);
            reveal(selected_trips_applied);
            encode_utf8_valid_utf8(x);
            encode_utf8_decode_utf8(x);
            assert(selected_trips_applied(data, field_at(2u32, Enc::Bytes(encode_utf8(x)), q1), m1, c) == Ok::<SpecSelectedTrips, ErrorKind>(m2));
        },
        None => {
                assert(p1 =~= Seq::<(u32, Enc)>::empty());
            },
    }
}

proof fn lemma_selected_trips_fold(data: Seq<u8>, s: nat, m: SpecSelectedTrips, c: nat)
    requires
        selected_trips_raw_ok(m, c),
        c + 1 >= 1,
        s + enc_all(selected_trips_encs(m)).len() <= data.len() <= usize::MAX,
        data.subrange(s as int, (s + enc_all(selected_trips_encs(m)).len()) as int) == enc_all(selected_trips_encs(m)),
    ensures
        fold_fields(fields_at(selected_trips_encs(m), s), selected_trips_default(), selected_trips_step(data, c)) == Ok::<
            SpecSelectedTrips,
            ErrorKind,
        >(m),
{
    let es = selected_trips_encs(m);
    let step = selected_trips_step(data, c);
    let p0 = selected_trips_trip_ids_part(m);
    let p1 = selected_trips_shape_id_part(m);
    let r1 = p1;
    let r0 = p0 + r1;
    assert(es == r0);
    let m0 = selected_trips_default();
    let q0 = s;
    let m1 = SpecSelectedTrips { trip_ids: m.trip_ids, ..selected_trips_default() };
    let q1 = q0 + enc_all(p0).len();
    assert(fold_fields(fields_at(r0, q0), m0, step) == fold_fields(fields_at(r1, q1), m1, step)
        && q1 + enc_all(r1).len() <= data.len()
        && data.subrange(q1 as int, (q1 + enc_all(r1).len()) as int) == enc_all(r1)) by {
        lemma_enc_add(p0, r1, q0);
        lemma_subrange_split(data, q0, enc_all(p0), enc_all(r1));
        lemma_fold_add(fields_at(p0, q0), fields_at(r1, q1), m0, step);
        lemma_selected_trips_trip_ids_read(data, q0, m, c);
    }
    let m2 = SpecSelectedTrips { trip_ids: m.trip_ids, shape_id: m.shape_id, ..selected_trips_default() };
    let q2 = q1 + enc_all(p1).len();
    lemma_selected_trips_shape_id_read(data, q1, m, c);
    assert(m2 == m);
}

/// Decoding the bytes of a `SelectedTrips` gives it back.
pub proof fn lemma_selected_trips_decoded(data: Seq<u8>, s: nat, m: SpecSelectedTrips, ctx: nat)
    requires
        selected_trips_raw_ok(m, (ctx - 1) as nat),
        ctx >= 1,
        s + selected_trips_encoded(m).len() <= data.len() <= usize::MAX,
        data.subrange(s as int, (s + selected_trips_encoded(m).len()) as int) == selected_trips_encoded(m),
    ensures
        selected_trips_merged(data, s, s + selected_trips_encoded(m).len(), ctx, selected_trips_default()) == Ok::<
            SpecSelectedTrips,
            ErrorKind,
        >(m),
{
    lemma_selected_trips_encs(m);
    lemma_fields_read(data, s, selected_trips_encs(m), (ctx - 1) as nat);
    lemma_selected_trips_fold(data, s, m, (ctx - 1) as nat);
}

/// Every part of a `Modification` kept as raw bytes, at any depth, passes the
/// check that decoding gives it when the fields of the `Modification` are read
/// with budget `c`.
pub open spec fn modification_raw_ok(m: SpecModification, c: nat) -> bool {
    (m.start_stop_selector matches Some(x) ==> stop_selector_raw_ok(x, (c - 1) as nat))
    && (m.end_stop_selector matches Some(x) ==> stop_selector_raw_ok(x, (c - 1) as nat))
    && (forall|i: int| 0 <= i < m.replacement_stops.len() ==> replacement_stop_raw_ok(#[trigger] m.replacement_stops[i], (c - 1) as nat))
}

/// Field `start_stop_selector` of a `Modification` as it is written.
#[verifier::opaque]
pub open spec fn modification_start_stop_selector_part(m: SpecModification) -> Seq<(u32, Enc)> {
    match m.start_stop_selector {
        Some(x) => seq![(1u32, Enc::Bytes(stop_selector_encoded(x)))],
        None => Seq::empty(),
    }
}

/// Field `end_stop_selector` of a `Modification` as it is written.
#[verifier::opaque]
pub open spec fn modification_end_stop_selector_part(m: SpecModification) -> Seq<(u32, Enc)> {
    match m.end_stop_selector {
        Some(x) => seq![(2u32, Enc::Bytes(stop_selector_encoded(x)))],
        None => Seq::empty(),
    }
}

/// Field `propagated_modification_delay` of a `Modification` as it is written.
#[verifier::opaque]
pub open spec fn modification_propagated_modification_delay_part(m: SpecModification) -> Seq<(u32, Enc)> {
    match m.propagated_modification_delay {
        Some(x) => seq![(3u32, Enc::Varint(x as u64))],
        None => Seq::empty(),
    }
}

/// Field `replacement_stops` of a `Modification` as it is written.
#[verifier::opaque]
pub open spec fn modification_replacement_stops_part(m: SpecModification) -> Seq<(u32, Enc)> {
    bytes_items(4u32, m.replacement_stops.map_values(replacement_stop_encoder()))
}

/// Field `service_alert_id` of a `Modification` as it is written.
#[verifier::opaque]
pub open spec fn modification_service_alert_id_part(m: SpecModification) -> Seq<(u32, Enc)> {
    match m.service_alert_id {
        Some(x) => seq![(5u32, Enc::Bytes(encode_utf8(x)))],
        None => Seq::empty(),
    }
}

/// Field `last_modified_time` of a `Modification` as it is written.
#[verifier::opaque]
pub open spec fn modification_last_modified_time_part(m: SpecModification) -> Seq<(u32, Enc)> {
    match m.last_modified_time {
        Some(x) => seq![(6u32, Enc::Varint(x))],
        None => Seq::empty(),
    }
}

/// The fields of a `Modification` as they are written.
pub open spec fn modification_encs(m: SpecModification) -> Seq<(u32, Enc)> {
    modification_start_stop_selector_part(m) + (modification_end_stop_selector_part(m) + (modification_propagated_modification_delay_part(m) + (modification_replacement_stops_part(m) + (modification_service_alert_id_part(m) + (modification_last_modified_time_part(m))))))
}

#[verifier::rlimit(100)]
proof fn lemma_modification_encs(m: SpecModification)
    ensures
        modification_encoded(m) == enc_all(modification_encs(m)),
        tags_ok(modification_encs(m)),
{
    reveal(modification_encoded);
    let p0 = modification_start_stop_selector_part(m);
    let b0 = opt_bytes_field(
            1,
            match m.start_stop_selector {
                Some(x) => Some(stop_selector_encoded(x)),
                None => None,
            },
        );
    assert(enc_all(p0) == b0 && tags_ok(p0)) by {
        reveal(modification_start_stop_selector_part);
        match m.start_stop_selector {
            Some(x) => {
                lemma_enc_single(1u32, Enc::Bytes(stop_selector_encoded(x)), 0);
                assert(enc_all(p0) =~= b0);
            },
            None => {
                assert(enc_all(p0) =~= b0);
            },
        }
    }
    let p1 = modification_end_stop_selector_part(m);
    let b1 = opt_bytes_field(
            2,
            match m.end_stop_selector {
                Some(x) => Some(stop_selector_encoded(x)),
                None => None,
            },
        );
    assert(enc_all(p1) == b1 && tags_ok(p1)) by {
        reveal(modification_end_stop_selector_part);
        match m.end_stop_selector {
            Some(x) => {
                lemma_enc_single(2u32, Enc::Bytes(stop_selector_encoded(x)), 0);
                assert(enc_all(p1) =~= b1);
            },
            None => {
                assert(enc_all(p1) =~= b1);
            },
        }
    }
    let p2 = modification_propagated_modification_delay_part(m);
    let b2 = opt_varint_field(
            3,
            match m.propagated_modification_delay {
                Some(v) => Some(v as u64),
                None => None,
            },
        );
    assert(enc_all(p2) == b2 && tags_ok(p2)) by {
        reveal(modification_propagated_modification_delay_part);
        match m.propagated_modification_delay {
            Some(x) => {
                lemma_enc_single(3u32, Enc::Varint(x as u64), 0);
                assert(enc_all(p2) =~= b2);
            },
            None => {
                assert(enc_all(p2) =~= b2);
            },
        }
    }
    let p3 = modification_replacement_stops_part(m);
    let b3 = repeated_bytes_field(4, m.replacement_stops.map_values(replacement_stop_encoder()));
    assert(enc_all(p3) == b3 && tags_ok(p3)) by {
        reveal(modification_replacement_stops_part);
        lemma_bytes_items(4u32, m.replacement_stops.map_values(replacement_stop_encoder()));
    }
    let p4 = modification_service_alert_id_part(m);
    let b4 = match m.service_alert_id {
            Some(x) => string_field(5, x),
            None => Seq::empty(),
        };
    assert(enc_all(p4) == b4 && tags_ok(p4)) by {
        reveal(modification_service_alert_id_part);
        match m.service_alert_id {
            Some(x) => {
                lemma_enc_single(5u32, Enc::Bytes(encode_utf8(x)), 0);
                assert(enc_all(p4) =~= b4);
            },
            None => {
                assert(enc_all(p4) =~= b4);
            },
        }
    }
    let p5 = modification_last_modified_time_part(m);
    let b5 = opt_varint_field(
            6,
            match m.last_modified_time {
                Some(v) => Some(v),
                None => None,
            },
        );
    assert(enc_all(p5) == b5 && tags_ok(p5)) by {
        reveal(modification_last_modified_time_part);
        match m.last_modified_time {
            Some(x) => {
                lemma_enc_single(6u32, Enc::Varint(x), 0);
                assert(enc_all(p5) =~= b5);
            },
            None => {
                assert(enc_all(p5) =~= b5);
            },
        }
    }
    let r5 = p5;
    let s5 = b5;
    let r4 = p4 + r5;
    let s4 = b4 + s5;
    lemma_enc_add(p4, r5, 0);
    let r3 = p3 + r4;
    let s3 = b3 + s4;
    lemma_enc_add(p3, r4, 0);
    let r2 = p2 + r3;
    let s2 = b2 + s3;
    lemma_enc_add(p2, r3, 0);
    let r1 = p1 + r2;
    let s1 = b1 + s2;
    lemma_enc_add(p1, r2, 0);
    let r0 = p0 + r1;
    let s0 = b0 + s1;
    lemma_enc_add(p0, r1, 0);
    let l0 = b0;
    let l1 = l0 + b1;
    let l2 = l1 + b2;
    let l3 = l2 + b3;
    let l4 = l3 + b4;
    let l5 = l4 + b5;
    assert(l0 + s1 == s0);
    lemma_add_assoc(l0, b1, s2);
    assert(l1 + s2 == s0);
    lemma_add_assoc(l1, b2, s3);
    assert(l2 + s3 == s0);
    lemma_add_assoc(l2, b3, s4);
    assert(l3 + s4 == s0);
    lemma_add_assoc(l3, b4, s5);
    assert(l4 + s5 == s0);
    assert(modification_encoded(m) == l5);
    assert(modification_encs(m) == r0);
}

proof fn lemma_modification_replacement_stops_items(data: Seq<u8>, q: nat, items: Seq<SpecReplacementStop>, mp: SpecModification, c: nat)
    requires
        forall|i: int| 0 <= i < items.len() ==> replacement_stop_raw_ok(#[trigger] items[i], (c - 1) as nat),
        c >= 1,
        q + enc_all(bytes_items(4u32, items.map_values(replacement_stop_encoder()))).len() <= data.len() <= usize::MAX,
        data.subrange(q as int, (q + enc_all(bytes_items(4u32, items.map_values(replacement_stop_encoder()))).len()) as int) == enc_all(bytes_items(4u32, items.map_values(replacement_stop_encoder()))),
    ensures
        fold_fields(fields_at(bytes_items(4u32, items.map_values(replacement_stop_encoder())), q), mp, modification_step(data, c)) == Ok::<SpecModification, ErrorKind>(
            SpecModification { replacement_stops: mp.replacement_stops + items, ..mp },
        ),
    decreases items.len(),
{
    let bs = items.map_values(replacement_stop_encoder());
    let es = bytes_items(4u32, bs);
    if items.len() == 0 {
        assert(es =~= Seq::<(u32, Enc)>::empty());
        assert(mp.replacement_stops + items =~= mp.replacement_stops);
    } else {
        lemma_bytes_items(4u32, bs);
        let head = seq![(4u32, Enc::Bytes(bs[0]))];
        let rest_items = items.drop_first();
        assert(bs.drop_first() =~= rest_items.map_values(replacement_stop_encoder()));
        let rest = bytes_items(4u32, rest_items.map_values(replacement_stop_encoder()));
        lemma_enc_add(head, rest, q);
        lemma_enc_single(4u32, Enc::Bytes(bs[0]), q);
        lemma_subrange_split(data, q, enc_all(head), enc_all(rest));
        lemma_field_read(data, q, q + enc_all(head).len(), c, 4u32, Enc::Bytes(bs[0]));
        let fd = field_at(4u32, Enc::Bytes(bs[0]), q);
        lemma_fold_add(seq![fd], fields_at(rest, q + enc_all(head).len()), mp, modification_step(data, c));
        lemma_fold_single(fd, mp, modification_step(data, c));
        reveal(modification_applied);
        let a = q + key_bytes(4nat, 2).len() + varint_bytes(bs[0].len()).len();
        lemma_replacement_stop_decoded(data, a, items[0], c);
        let m1 = SpecModification { replacement_stops: mp.replacement_stops.push(items[0]), ..mp };
        assert(modification_applied(data, fd, mp, c) == Ok::<SpecModification, ErrorKind>(m1));
        lemma_modification_replacement_stops_items(data, q + enc_all(head).len(), rest_items, m1, c);
        assert(m1.replacement_stops + rest_items =~= mp.replacement_stops + items);
    }
}

proof fn lemma_modification_start_stop_selector_read(data: Seq<u8>, q: nat, m: SpecModification, c: nat)
    requires
        modification_raw_ok(m, c),
        c + 1 >= 2,
        q + enc_all(modification_start_stop_selector_part(m)).len() <= data.len() <= usize::MAX,
        data.subrange(q as int, (q + enc_all(modification_start_stop_selector_part(m)).len()) as int) == enc_all(modification_start_stop_selector_part(m)),
    ensures
        fold_fields(fields_at(modification_start_stop_selector_part(m), q), modification_default(), modification_step(data, c)) == Ok::<SpecModification, ErrorKind>(
            SpecModification { start_stop_selector: m.start_stop_selector, ..modification_default() },
        ),
{
    let p0 = modification_start_stop_selector_part(m);
    let q0 = q;
    let step = modification_step(data, c);
    let m0 = modification_default();
    let m1 = SpecModification { start_stop_selector: m.start_stop_selector, ..modification_default() };
    reveal(modification_start_stop_selector_part);
    match m.start_stop_selector {
        Some(x) => {
            lemma_enc_single(1u32, Enc::Bytes(stop_selector_encoded(x)), q0);
            lemma_field_read(data, q0, q0 + enc_all(p0).len(), c, 1u32, Enc::Bytes(stop_selector_encoded(x)));
            lemma_fold_single(field_at(1u32, Enc::Bytes(stop_selector_encoded(x)), q0), m0, step);
            reveal(modification_applied);
            let a = q0 + key_bytes(1nat, 2).len() + varint_bytes(stop_selector_encoded(x).len()).len();
            lemma_stop_selector_decoded(data, a, x, c);
            assert(modification_applied(data, field_at(1u32, Enc::Bytes(stop_selector_encoded(x)), q0), m0, c) == Ok::<SpecModification, ErrorKind>(m1));
        },
        None => {
                assert(p0 =~= Seq::<(u32, Enc)>::empty());
            },
    }
}

proof fn lemma_modification_end_stop_selector_read(data: Seq<u8>, q: nat, m: SpecModification, c: nat)
    requires
        modification_raw_ok(m, c),
        c + 1 >= 2,
        q + enc_all(modification_end_stop_selector_part(m)).len() <= data.len() <= usize::MAX,
        data.subrange(q as int, (q + enc_all(modification_end_stop_selector_part(m)).len()) as int) == enc_all(modification_end_stop_selector_part(m)),
    ensures
        fold_fields(fields_at(modification_end_stop_selector_part(m), q), SpecModification { start_stop_selector: m.start_stop_selector, ..modification_default() }, modification_step(data, c)) == Ok::<SpecModification, ErrorKind>(
            SpecModification { start_stop_selector: m.start_stop_selector, end_stop_selector: m.end_stop_selector, ..modification_default() },
        ),
{
    let p1 = modification_end_stop_selector_part(m);
    let q1 = q;
    let step = modification_step(data, c);
    let m1 = SpecModification { start_stop_selector: m.start_stop_selector, ..modification_default() };
    let m2 = SpecModification { start_stop_selector: m.start_stop_selector, end_stop_selector: m.end_stop_selector, ..modification_default() };
    reveal(modification_end_stop_selector_part);
    match m.end_stop_selector {
        Some(x) => {
            lemma_enc_single(2u32, Enc::Bytes(stop_selector_encoded(x)), q1);
            lemma_field_read(data, q1, q1 + enc_all(p1).len(), c, 2u32, Enc::Bytes(stop_selector_encoded(x)));
            lemma_fold_single(field_at(2u32, Enc::Bytes(stop_selector_encoded(x)), q1), m1, step);
            reveal(modification_applied);
            let a = q1 + key_bytes(2nat, 2).len() + varint_bytes(stop_selector_encoded(x).len()).len();
            lemma_stop_selector_decoded(data, a, x, c);
            assert(modification_applied(data, field_at(2u32, Enc::Bytes(stop_selector_encoded(x)), q1), m1, c) == Ok::<SpecModification, ErrorKind>(m2));
        },
        None => {
                assert(p1 =~= Seq::<(u32, Enc)>::empty());
            },
    }
}

proof fn lemma_modification_propagated_modification_delay_read(data: Seq<u8>, q: nat, m: SpecModification, c: nat)
    requires
        modification_raw_ok(m, c),
        c + 1 >= 2,
        q + enc_all(modification_propagated_modification_delay_part(m)).len() <= data.len() <= usize::MAX,
        data.subrange(q as int, (q + enc_all(modification_propagated_modification_delay_part(m)).len()) as int) == enc_all(modification_propagated_modification_delay_part(m)),
    ensures
        fold_fields(fields_at(modification_propagated_modification_delay_part(m), q), SpecModification { start_stop_selector: m.start_stop_selector, end_stop_selector: m.end_stop_selector, ..modification_default() }, modification_step(data, c)) == Ok::<SpecModification, ErrorKind>(
            SpecModification { start_stop_selector: m.start_stop_selector, end_stop_selector: m.end_stop_selector, propagated_modification_delay: m.propagated_modification_delay, ..modification_default() },
        ),
{
    let p2 = modification_propagated_modification_delay_part(m);
    let q2 = q;
    let step = modification_step(data, c);
    let m2 = SpecModification { start_stop_selector: m.start_stop_selector, end_stop_selector: m.end_stop_selector, ..modification_default() };
    let m3 = SpecModification { start_stop_selector: m.start_stop_selector, end_stop_selector: m.end_stop_selector, propagated_modification_delay: m.propagated_modification_delay, ..modification_default() };
    reveal(modification_propagated_modification_delay_part);
    match m.propagated_modification_delay {
        Some(x) => {
            lemma_enc_single(3u32, Enc::Varint(x as u64), q2);
            lemma_field_read(data, q2, q2 + enc_all(p2).len(), c, 3u32, Enc::Varint(x as u64));
            lemma_fold_single(field_at(3u32, Enc::Varint(x as u64), q2), m2, step);
            reveal(modification_applied);
            lemma_i32_wire(x);
            assert(modification_applied(data, field_at(3u32, Enc::Varint(x as u64), q2), m2, c) == Ok::<SpecModification, ErrorKind>(m3));
        },
        None => {
                assert(p2 =~= Seq::<(u32, Enc)>::empty());
            },
    }
}

proof fn lemma_modification_replacement_stops_read(data: Seq<u8>, q: nat, m: SpecModification, c: nat)
    requires
        modification_raw_ok(m, c),
        c + 1 >= 2,
        q + enc_all(modification_replacement_stops_part(m)).len() <= data.len() <= usize::MAX,
        data.subrange(q as int, (q + enc_all(modification_replacement_stops_part(m)).len()) as int) == enc_all(modification_replacement_stops_part(m)),
    ensures
        fold_fields(fields_at(modification_replacement_stops_part(m), q), SpecModification { start_stop_selector: m.start_stop_selector, end_stop_selector: m.end_stop_selector, propagated_modification_delay: m.propagated_modification_delay, ..modification_default() }, modification_step(data, c)) == Ok::<SpecModification, ErrorKind>(
            SpecModification { start_stop_selector: m.start_stop_selector, end_stop_selector: m.end_stop_selector, propagated_modification_delay: m.propagated_modification_delay, replacement_stops: m.replacement_stops, ..modification_default() },
        ),
{
    let p3 = modification_replacement_stops_part(m);
    let q3 = q;
    let step = modification_step(data, c);
    let m3 = SpecModification { start_stop_selector: m.start_stop_selector, end_stop_selector: m.end_stop_selector, propagated_modification_delay: m.propagated_modification_delay, ..modification_default() };
    let m4 = SpecModification { start_stop_selector: m.start_stop_selector, end_stop_selector: m.end_stop_selector, propagated_modification_delay: m.propagated_modification_delay, replacement_stops: m.replacement_stops, ..modification_default() };
    reveal(modification_replacement_stops_part);
    lemma_modification_replacement_stops_items(data, q3, m.replacement_stops, m3, c);
    assert(m3.replacement_stops + m.replacement_stops =~= m.replacement_stops);
}

proof fn lemma_modification_service_alert_id_read(data: Seq<u8>, q: nat, m: SpecModification, c: nat)
    requires
        modification_raw_ok(m, c),
        c + 1 >= 2,
        q + enc_all(modification_service_alert_id_part(m)).len() <= data.len() <= usize::MAX,
        data.subrange(q as int, (q + enc_all(modification_service_alert_id_part(m)).len()) as int) == enc_all(modification_service_alert_id_part(m)),
    ensures
        fold_fields(fields_at(modification_service_alert_id_part(m), q), SpecModification { start_stop_selector: m.start_stop_selector, end_stop_selector: m.end_stop_selector, propagated_modification_delay: m.propagated_modification_delay, replacement_stops: m.replacement_stops, ..modification_default() }, modification_step(data, c)) == Ok::<SpecModification, ErrorKind>(
            SpecModification { start_stop_selector: m.start_stop_selector, end_stop_selector: m.end_stop_selector, propagated_modification_delay: m.propagated_modification_delay, replacement_stops: m.replacement_stops, service_alert_id: m.service_alert_id, ..modification_default() },
        ),
{
    let p4 = modification_service_alert_id_part(m);
    let q4 = q;
    let step = modification_step(data, c);
    let m4 = SpecModification { start_stop_selector: m.start_stop_selector, end_stop_selector: m.end_stop_selector, propagated_modification_delay: m.propagated_modification_delay, replacement_stops: m.replacement_stops, ..modification_default() };
    let m5 = SpecModification { start_stop_selector: m.start_stop_selector, end_stop_selector: m.end_stop_selector, propagated_modification_delay: m.propagated_modification_delay, replacement_stops: m.replacement_stops, service_alert_id: m.service_alert_id, ..modification_default() };
    reveal(modification_service_alert_id_part);
    match m.service_alert_id {
        Some(x) => {
            lemma_enc_single(5u32, Enc::Bytes(encode_utf8(x)), q4);
            lemma_field_read(data, q4, q4 + enc_all(p4).len(), c, 5u32, Enc::Bytes(encode_utf8(x)));
            lemma_fold_single(field_at(5u32, Enc::Bytes(encode_utf8(x)), q4), m4, step);
            reveal(modification_applied);
            encode_utf8_valid_utf8(x);
            encode_utf8_decode_utf8(x);
            assert(modification_applied(data, field_at(5u32, Enc::Bytes(encode_utf8(x)), q4), m4, c) == Ok::<SpecModification, ErrorKind>(m5));
        },
        None => {
                assert(p4 =~= Seq::<(u32, Enc)>::empty());
            },
    }
}

proof fn lemma_modification_last_modified_time_read(data: Seq<u8>, q: nat, m: SpecModification, c: nat)
    requires
        modification_raw_ok(m, c),
        c + 1 >= 2,
        q + enc_all(modification_last_modified_time_part(m)).len() <= data.len() <= usize::MAX,
        data.subrange(q as int, (q + enc_all(modification_last_modified_time_part(m)).len()) as int) == enc_all(modification_last_modified_time_part(m)),
    ensures
        fold_fields(fields_at(modification_last_modified_time_part(m), q), SpecModification { start_stop_selector: m.start_stop_selector, end_stop_selector: m.end_stop_selector, propagated_modification_delay: m.propagated_modification_delay, replacement_stops: m.replacement_stops, service_alert_id: m.service_alert_id, ..modification_default() }, modification_step(data, c)) == Ok::<SpecModification, ErrorKind>(
            SpecModification { start_stop_selector: m.start_stop_selector, end_stop_selector: m.end_stop_selector, propagated_modification_delay: m.propagated_modification_delay, replacement_stops: m.replacement_stops, service_alert_id: m.service_alert_id, last_modified_time: m.last_modified_time, ..modification_default() },
        ),
{
    let p5 = modification_last_modified_time_part(m);
    let q5 = q;
    let step = modification_step(data, c);
    let m5 = SpecModification { start_stop_selector: m.start_stop_selector, end_stop_selector: m.end_stop_selector, propagated_modification_delay: m.propagated_modification_delay, replacement_stops: m.replacement_stops, service_alert_id: m.service_alert_id, ..modification_default() };
    let m6 = SpecModification { start_stop_selector: m.start_stop_selector, end_stop_selector: m.end_stop_selector, propagated_modification_delay: m.propagated_modification_delay, replacement_stops: m.replacement_stops, service_alert_id: m.service_alert_id, last_modified_time: m.last_modified_time, ..modification_default() };
    reveal(modification_last_modified_time_part);
    match m.last_modified_time {
        Some(x) => {
            lemma_enc_single(6u32, Enc::Varint(x), q5);
            lemma_field_read(data, q5, q5 + enc_all(p5).len(), c, 6u32, Enc::Varint(x));
            lemma_fold_single(field_at(6u32, Enc::Varint(x), q5), m5, step);
            reveal(modification_applied);
            assert(modification_applied(data, field_at(6u32, Enc::Varint(x), q5), m5, c) == Ok::<SpecModification, ErrorKind>(m6));
        },
        None => {
                assert(p5 =~= Seq::<(u32, Enc)>::empty());
            },
    }
}

proof fn lemma_modification_fold(data: Seq<u8>, s: nat, m: SpecModification, c: nat)
    requires
        modification_raw_ok(m, c),
        c + 1 >= 2,
        s + enc_all(modification_encs(m)).len() <= data.len() <= usize::MAX,
        data.subrange(s as int, (s + enc_all(modification_encs(m)).len()) as int) == enc_all(modification_encs(m)),
    ensures
        fold_fields(fields_at(modification_encs(m), s), modification_default(), modification_step(data, c)) == Ok::<
            SpecModification,
            ErrorKind,
        >(m),
{
    let es = modification_encs(m);
    let step = modification_step(data, c);
    let p0 = modification_start_stop_selector_part(m);
    let p1 = modification_end_stop_selector_part(m);
    let p2 = modification_propagated_modification_delay_part(m);
    let p3 = modification_replacement_stops_part(m);
    let p4 = modification_service_alert_id_part(m);
    let p5 = modification_last_modified_time_part(m);
    let r5 = p5;
    let r4 = p4 + r5;
    let r3 = p3 + r4;
    let r2 = p2 + r3;
    let r1 = p1 + r2;
    let r0 = p0 + r1;
    assert(es == r0);
    let m0 = modification_default();
    let q0 = s;
    let m1 = SpecModification { start_stop_selector: m.start_stop_selector, ..modification_default() };
    let q1 = q0 + enc_all(p0).len();
    assert(fold_fields(fields_at(r0, q0), m0, step) == fold_fields(fields_at(r1, q1), m1, step)
        && q1 + enc_all(r1).len() <= data.len()
        && data.subrange(q1 as int, (q1 + enc_all(r1).len()) as int) == enc_all(r1)) by {
        lemma_enc_add(p0, r1, q0);
        lemma_subrange_split(data, q0, enc_all(p0), enc_all(r1));
        lemma_fold_add(fields_at(p0, q0), fields_at(r1, q1), m0, step);
        lemma_modification_start_stop_selector_read(data, q0, m, c);
    }
    let m2 = SpecModification { start_stop_selector: m.start_stop_selector, end_stop_selector: m.end_stop_selector, ..modification_default() };
    let q2 = q1 + enc_all(p1).len();
    assert(fold_fields(fields_at(r1, q1), m1, step) == fold_fields(fields_at(r2, q2), m2, step)
        && q2 + enc_all(r2).len() <= data.len()
        && data.subrange(q2 as int, (q2 + enc_all(r2).len()) as int) == enc_all(r2)) by {
        lemma_enc_add(p1, r2, q1);
        lemma_subrange_split(data, q1, enc_all(p1), enc_all(r2));
        lemma_fold_add(fields_at(p1, q1), fields_at(r2, q2), m1, step);
        lemma_modification_end_stop_selector_read(data, q1, m, c);
    }
    let m3 = SpecModification { start_stop_selector: m.start_stop_selector, end_stop_selector: m.end_stop_selector, propagated_modification_delay: m.propagated_modification_delay, ..modification_default() };
    let q3 = q2 + enc_all(p2).len();
    assert(fold_fields(fields_at(r2, q2), m2, step) == fold_fields(fields_at(r3, q3), m3, step)
        && q3 + enc_all(r3).len() <= data.len()
        && data.subrange(q3 as int, (q3 + enc_all(r3).len()) as int) == enc_all(r3)) by {
        lemma_enc_add(p2, r3, q2);
        lemma_subrange_split(data, q2, enc_all(p2), enc_all(r3));
        lemma_fold_add(fields_at(p2, q2), fields_at(r3, q3), m2, step);
        lemma_modification_propagated_modification_delay_read(data, q2, m, c);
    }
    let m4 = SpecModification { start_stop_selector: m.start_stop_selector, end_stop_selector: m.end_stop_selector, propagated_modification_delay: m.propagated_modification_delay, replacement_stops: m.replacement_stops, ..modification_default() };
    let q4 = q3 + enc_all(p3).len();
    assert(fold_fields(fields_at(r3, q3), m3, step) == fold_fields(fields_at(r4, q4), m4, step)
        && q4 + enc_all(r4).len() <= data.len()
        && data.subrange(q4 as int, (q4 + enc_all(r4).len()) as int) == enc_all(r4)) by {
        lemma_enc_add(p3, r4, q3);
        lemma_subrange_split(data, q3, enc_all(p3), enc_all(r4));
        lemma_fold_add(fields_at(p3, q3), fields_at(r4, q4), m3, step);
        lemma_modification_replacement_stops_read(data, q3, m, c);
    }
    let m5 = SpecModification { start_stop_selector: m.start_stop_selector, end_stop_selector: m.end_stop_selector, propagated_modification_delay: m.propagated_modification_delay, replacement_stops: m.replacement_stops, service_alert_id: m.service_alert_id, ..modification_default() };
    let q5 = q4 + enc_all(p4).len();
    assert(fold_fields(fields_at(r4, q4), m4, step) == fold_fields(fields_at(r5, q5), m5, step)
        && q5 + enc_all(r5).len() <= data.len()
        && data.subrange(q5 as int, (q5 + enc_all(r5).len()) as int) == enc_all(r5)) by {
        lemma_enc_add(p4, r5, q4);
        lemma_subrange_split(data, q4, enc_all(p4), enc_all(r5));
        lemma_fold_add(fields_at(p4, q4), fields_at(r5, q5), m4, step);
        lemma_modification_service_alert_id_read(data, q4, m, c);
    }
    let m6 = SpecModification { start_stop_selector: m.start_stop_selector, end_stop_selector: m.end_stop_selector, propagated_modification_delay: m.propagated_modification_delay, replacement_stops: m.replacement_stops, service_alert_id: m.service_alert_id, last_modified_time: m.last_modified_time, ..modification_default() };
    let q6 = q5 + enc_all(p5).len();
    lemma_modification_last_modified_time_read(data, q5, m, c);
    assert(m6 == m);
}

/// Decoding the bytes of a `Modification` gives it back.
pub proof fn lemma_modification_decoded(data: Seq<u8>, s: nat, m: SpecModification, ctx: nat)
    requires
        modification_raw_ok(m, (ctx - 1) as nat),
        ctx >= 2,
        s + modification_encoded(m).len() <= data.len() <= usize::MAX,
        data.subrange(s as int, (s + modification_encoded(m).len()) as int) == modification_encoded(m),
    ensures
        modification_merged(data, s, s + modification_encoded(m).len(), ctx, modification_default()) == Ok::<
            SpecModification,
            ErrorKind,
        >(m),
{
    lemma_modification_encs(m);
    lemma_fields_read(data, s, modification_encs(m), (ctx - 1) as nat);
    lemma_modification_fold(data, s, m, (ctx - 1) as nat);
}

/// Every part of a `StopSelector` kept as raw bytes, at any depth, passes the
/// check that decoding gives it when the fields of the `StopSelector` are read
/// with budget `c`.
pub open spec fn stop_selector_raw_ok(m: SpecStopSelector, c: nat) -> bool {
    true
}

/// Field `stop_sequence` of a `StopSelector` as it is written.
#[verifier::opaque]
pub open spec fn stop_selector_stop_sequence_part(m: SpecStopSelector) -> Seq<(u32, Enc)> {
    match m.stop_sequence {
        Some(x) => seq![(1u32, Enc::Varint(x as u64))],
        None => Seq::empty(),
    }
}

/// Field `stop_id` of a `StopSelector` as it is written.
#[verifier::opaque]
pub open spec fn stop_selector_stop_id_part(m: SpecStopSelector) -> Seq<(u32, Enc)> {
    match m.stop_id {
        Some(x) => seq![(2u32, Enc::Bytes(encode_utf8(x)))],
        None => Seq::empty(),
    }
}

/// The fields of a `StopSelector` as they are written.
pub open spec fn stop_selector_encs(m: SpecStopSelector) -> Seq<(u32, Enc)> {
    stop_selector_stop_sequence_part(m) + (stop_selector_stop_id_part(m))
}

proof fn lemma_stop_selector_encs(m: SpecStopSelector)
    ensures
        stop_selector_encoded(m) == enc_all(stop_selector_encs(m)),
        tags_ok(stop_selector_encs(m)),
{
    reveal(stop_selector_encoded);
    let p0 = stop_selector_stop_sequence_part(m);
    let b0 = opt_varint_field(
            1,
            match m.stop_sequence {
                Some(v) => Some(v as u64),
                None => None,
            },
        );
    assert(enc_all(p0) == b0 && tags_ok(p0)) by {
        reveal(stop_selector_stop_sequence_part);
        match m.stop_sequence {
            Some(x) => {
                lemma_enc_single(1u32, Enc::Varint(x as u64), 0);
                assert(enc_all(p0) =~= b0);
            },
            None => {
                assert(enc_all(p0) =~= b0);
            },
        }
    }
    let p1 = stop_selector_stop_id_part(m);
    let b1 = match m.stop_id {
            Some(x) => string_field(2, x),
            None => Seq::empty(),
        };
    assert(enc_all(p1) == b1 && tags_ok(p1)) by {
        reveal(stop_selector_stop_id_part);
        match m.stop_id {
            Some(x) => {
                lemma_enc_single(2u32, Enc::Bytes(encode_utf8(x)), 0);
                assert(enc_all(p1) =~= b1);
            },
            None => {
                assert(enc_all(p1) =~= b1);
            },
        }
    }
    let r1 = p1;
    let s1 = b1;
    let r0 = p0 + r1;
    let s0 = b0 + s1;
    lemma_enc_add(p0, r1, 0);
    let l0 = b0;
    let l1 = l0 + b1;
    assert(l0 + s1 == s0);
    assert(stop_selector_encoded(m) == l1);
    assert(stop_selector_encs(m) == r0);
}

proof fn lemma_stop_selector_stop_sequence_read(data: Seq<u8>, q: nat, m: SpecStopSelector, c: nat)
    requires
        stop_selector_raw_ok(m, c),
        c + 1 >= 1,
        q + enc_all(stop_selector_stop_sequence_part(m)).len() <= data.len() <= usize::MAX,
        data.subrange(q as int, (q + enc_all(stop_selector_stop_sequence_part(m)).len()) as int) == enc_all(stop_selector_stop_sequence_part(m)),
    ensures
        fold_fields(fields_at(stop_selector_stop_sequence_part(m), q), stop_selector_default(), stop_selector_step(data, c)) == Ok::<SpecStopSelector, ErrorKind>(
            SpecStopSelector { stop_sequence: m.stop_sequence, ..stop_selector_default() },
        ),
{
    let p0 = stop_selector_stop_sequence_part(m);
    let q0 = q;
    let step = stop_selector_step(data, c);
    let m0 = stop_selector_default();
    let m1 = SpecStopSelector { stop_sequence: m.stop_sequence, ..stop_selector_default() };
    reveal(stop_selector_stop_sequence_part);
    match m.stop_sequence {
        Some(x) => {
            lemma_enc_single(1u32, Enc::Varint(x as u64), q0);
            lemma_field_read(data, q0, q0 + enc_all(p0).len(), c, 1u32, Enc::Varint(x as u64));
            lemma_fold_single(field_at(1u32, Enc::Varint(x as u64), q0), m0, step);
            reveal(stop_selector_applied);
            assert(stop_selector_applied(data, field_at(1u32, Enc::Varint(x as u64), q0), m0, c) == Ok::<SpecStopSelector, ErrorKind>(m1));
        },
        None => {
                assert(p0 =~= Seq::<(u32, Enc)>::empty());
            },
    }
}

proof fn lemma_stop_selector_stop_id_read(data: Seq<u8>, q: nat, m: SpecStopSelector, c: nat)
    requires
        stop_selector_raw_ok(m, c),
        c + 1 >= 1,
        q + enc_all(stop_selector_stop_id_part(m)).len() <= data.len() <= usize::MAX,
        data.subrange(q as int, (q + enc_all(stop_selector_stop_id_part(m)).len()) as int) == enc_all(stop_selector_stop_id_part(m)),
    ensures
        fold_fields(fields_at(stop_selector_stop_id_part(m), q), SpecStopSelector { stop_sequence: m.stop_sequence, ..stop_selector_default() }, stop_selector_step(data, c)) == Ok::<SpecStopSelector, ErrorKind>(
            SpecStopSelector { stop_sequence: m.stop_sequence, stop_id: m.stop_id, ..stop_selector_default() },
        ),
{
    let p1 = stop_selector_stop_id_part(m);
    let q1 = q;
    let step = stop_selector_step(data, c);
    let m1 = SpecStopSelector { stop_sequence: m.stop_sequence, ..stop_selector_default() };
    let m2 = SpecStopSelector { stop_sequence: m.stop_sequence, stop_id: m.stop_id, ..stop_selector_default() };
    reveal(stop_selector_stop_id_part);
    match m.stop_id {
        Some(x) => {
            lemma_enc_single(2u32, Enc::Bytes(encode_utf8(x)), q1);
            lemma_field_read(data, q1, q1 + enc_all(p1).len(), c, 2u32, Enc::Bytes(encode_utf8(x)));
            lemma_fold_single(field_at(2u32, Enc::Bytes(encode_utf8(x)), q1), m1, step);
            reveal(stop_selector_applied);
            encode_utf8_valid_utf8(x);
            encode_utf8_decode_utf8(x);
            assert(stop_selector_applied(data, field_at(2u32, Enc::Bytes(encode_utf8(x)), q1), m1, c) == Ok::<SpecStopSelector, ErrorKind>(m2));
        },
        None => {
                assert(p1 =~= Seq::<(u32, Enc)>::empty());
            },
    }
}

proof fn lemma_stop_selector_fold(data: Seq<u8>, s: nat, m: SpecStopSelector, c: nat)
    requires
        stop_selector_raw_ok(m, c),
        c + 1 >= 1,
        s + enc_all(stop_selector_encs(m)).len() <= data.len() <= usize::MAX,
        data.subrange(s as int, (s + enc_all(stop_selector_encs(m)).len()) as int) == enc_all(stop_selector_encs(m)),
    ensures
        fold_fields(fields_at(stop_selector_encs(m), s), stop_selector_default(), stop_selector_step(data, c)) == Ok::<
            SpecStopSelector,
            ErrorKind,
        >(m),
{
    let es = stop_selector_encs(m);
    let step = stop_selector_step(data, c);
    let p0 = stop_selector_stop_sequence_part(m);
    let p1 = stop_selector_stop_id_part(m);
    let r1 = p1;
    let r0 = p0 + r1;
    assert(es == r0);
    let m0 = stop_selector_default();
    let q0 = s;
    let m1 = SpecStopSelector { stop_sequence: m.stop_sequence, ..stop_selector_default() };
    let q1 = q0 + enc_all(p0).len();
    assert(fold_fields(fields_at(r0, q0), m0, step) == fold_fields(fields_at(r1, q1), m1, step)
        && q1 + enc_all(r1).len() <= data.len()
        && data.subrange(q1 as int, (q1 + enc_all(r1).len()) as int) == enc_all(r1)) by {
        lemma_enc_add(p0, r1, q0);
        lemma_subrange_split(data, q0, enc_all(p0), enc_all(r1));
        lemma_fold_add(fields_at(p0, q0), fields_at(r1, q1), m0, step);
        lemma_stop_selector_stop_sequence_read(data, q0, m, c);
    }
    let m2 = SpecStopSelector { stop_sequence: m.stop_sequence, stop_id: m.stop_id, ..stop_selector_default() };
    let q2 = q1 + enc_all(p1).len();
    lemma_stop_selector_stop_id_read(data, q1, m, c);
    assert(m2 == m);
}

/// Decoding the bytes of a `StopSelector` gives it back.
pub proof fn lemma_stop_selector_decoded(data: Seq<u8>, s: nat, m: SpecStopSelector, ctx: nat)
    requires
        stop_selector_raw_ok(m, (ctx - 1) as nat),
        ctx >= 1,
        s + stop_selector_encoded(m).len() <= data.len() <= usize::MAX,
        data.subrange(s as int, (s + stop_selector_encoded(m).len()) as int) == stop_selector_encoded(m),
    ensures
        stop_selector_merged(data, s, s + stop_selector_encoded(m).len(), ctx, stop_selector_default()) == Ok::<
            SpecStopSelector,
            ErrorKind,
        >(m),
{
    lemma_stop_selector_encs(m);
    lemma_fields_read(data, s, stop_selector_encs(m), (ctx - 1) as nat);
    lemma_stop_selector_fold(data, s, m, (ctx - 1) as nat);
}

/// Every part of a `ReplacementStop` kept as raw bytes, at any depth, passes the
/// check that decoding gives it when the fields of the `ReplacementStop` are read
/// with budget `c`.
pub open spec fn replacement_stop_raw_ok(m: SpecReplacementStop, c: nat) -> bool {
    true
}

/// Field `travel_time_to_stop` of a `ReplacementStop` as it is written.
#[verifier::opaque]
pub open spec fn replacement_stop_travel_time_to_stop_part(m: SpecReplacementStop) -> Seq<(u32, Enc)> {
    match m.travel_time_to_stop {
        Some(x) => seq![(1u32, Enc::Varint(x as u64))],
        None => Seq::empty(),
    }
}

/// Field `stop_id` of a `ReplacementStop` as it is written.
#[verifier::opaque]
pub open spec fn replacement_stop_stop_id_part(m: SpecReplacementStop) -> Seq<(u32, Enc)> {
    match m.stop_id {
        Some(x) => seq![(2u32, Enc::Bytes(encode_utf8(x)))],
        None => Seq::empty(),
    }
}

/// The fields of a `ReplacementStop` as they are written.
pub open spec fn replacement_stop_encs(m: SpecReplacementStop) -> Seq<(u32, Enc)> {
    replacement_stop_travel_time_to_stop_part(m) + (replacement_stop_stop_id_part(m))
}

proof fn lemma_replacement_stop_encs(m: SpecReplacementStop)
    ensures
        replacement_stop_encoded(m) == enc_all(replacement_stop_encs(m)),
        tags_ok(replacement_stop_encs(m)),
{
    reveal(replacement_stop_encoded);
    let p0 = replacement_stop_travel_time_to_stop_part(m);
    let b0 = opt_varint_field(
            1,
            match m.travel_time_to_stop {
                Some(v) => Some(v as u64),
                None => None,
            },
        );
    assert(enc_all(p0) == b0 && tags_ok(p0)) by {
        reveal(replacement_stop_travel_time_to_stop_part);
        match m.travel_time_to_stop {
            Some(x) => {
                lemma_enc_single(1u32, Enc::Varint(x as u64), 0);
                assert(enc_all(p0) =~= b0);
            },
            None => {
                assert(enc_all(p0) =~= b0);
            },
        }
    }
    let p1 = replacement_stop_stop_id_part(m);
    let b1 = match m.stop_id {
            Some(x) => string_field(2, x),
            None => Seq::empty(),
        };
    assert(enc_all(p1) == b1 && tags_ok(p1)) by {
        reveal(replacement_stop_stop_id_part);
        match m.stop_id {
            Some(x) => {
                lemma_enc_single(2u32, Enc::Bytes(encode_utf8(x)), 0);
                assert(enc_all(p1) =~= b1);
            },
            None => {
                assert(enc_all(p1) =~= b1);
            },
        }
    }
    let r1 = p1;
    let s1 = b1;
    let r0 = p0 + r1;
    let s0 = b0 + s1;
    lemma_enc_add(p0, r1, 0);
    let l0 = b0;
    let l1 = l0 + b1;
    assert(l0 + s1 == s0);
    assert(replacement_stop_encoded(m) == l1);
    assert(replacement_stop_encs(m) == r0);
}

proof fn lemma_replacement_stop_travel_time_to_stop_read(data: Seq<u8>, q: nat, m: SpecReplacementStop, c: nat)
    requires
        replacement_stop_raw_ok(m, c),
        c + 1 >= 1,
        q + enc_all(replacement_stop_travel_time_to_stop_part(m)).len() <= data.len() <= usize::MAX,
        data.subrange(q as int, (q + enc_all(replacement_stop_travel_time_to_stop_part(m)).len()) as int) == enc_all(replacement_stop_travel_time_to_stop_part(m)),
    ensures
        fold_fields(fields_at(replacement_stop_travel_time_to_stop_part(m), q), replacement_stop_default(), replacement_stop_step(data, c)) == Ok::<SpecReplacementStop, ErrorKind>(
            SpecReplacementStop { travel_time_to_stop: m.travel_time_to_stop, ..replacement_stop_default() },
        ),
{
    let p0 = replacement_stop_travel_time_to_stop_part(m);
    let q0 = q;
    let step = replacement_stop_step(data, c);
    let m0 = replacement_stop_default();
    let m1 = SpecReplacementStop { travel_time_to_stop: m.travel_time_to_stop, ..replacement_stop_default() };
    reveal(replacement_stop_travel_time_to_stop_part);
    match m.travel_time_to_stop {
        Some(x) => {
            lemma_enc_single(1u32, Enc::Varint(x as u64), q0);
            lemma_field_read(data, q0, q0 + enc_all(p0).len(), c, 1u32, Enc::Varint(x as u64));
            lemma_fold_single(field_at(1u32, Enc::Varint(x as u64), q0), m0, step);
            reveal(replacement_stop_applied);
            lemma_i32_wire(x);
            assert(replacement_stop_applied(data, field_at(1u32, Enc::Varint(x as u64), q0), m0, c) == Ok::<SpecReplacementStop, ErrorKind>(m1));
        },
        None => {
                assert(p0 =~= Seq::<(u32, Enc)>::empty());
            },
    }
}

proof fn lemma_replacement_stop_stop_id_read(data: Seq<u8>, q: nat, m: SpecReplacementStop, c: nat)
    requires
        replacement_stop_raw_ok(m, c),
        c + 1 >= 1,
        q + enc_all(replacement_stop_stop_id_part(m)).len() <= data.len() <= usize::MAX,
        data.subrange(q as int, (q + enc_all(replacement_stop_stop_id_part(m)).len()) as int) == enc_all(replacement_stop_stop_id_part(m)),
    ensures
        fold_fields(fields_at(replacement_stop_stop_id_part(m), q), SpecReplacementStop { travel_time_to_stop: m.travel_time_to_stop, ..replacement_stop_default() }, replacement_stop_step(data, c)) == Ok::<SpecReplacementStop, ErrorKind>(
            SpecReplacementStop { travel_time_to_stop: m.travel_time_to_stop, stop_id: m.stop_id, ..replacement_stop_default() },
        ),
{
    let p1 = replacement_stop_stop_id_part(m);
    let q1 = q;
    let step = replacement_stop_step(data, c);
    let m1 = SpecReplacementStop { travel_time_to_stop: m.travel_time_to_stop, ..replacement_stop_default() };
    let m2 = SpecReplacementStop { travel_time_to_stop: m.travel_time_to_stop, stop_id: m.stop_id, ..replacement_stop_default() };
    reveal(replacement_stop_stop_id_part);
    match m.stop_id {
        Some(x) => {
            lemma_enc_single(2u32, Enc::Bytes(encode_utf8(x)), q1);
            lemma_field_read(data, q1, q1 + enc_all(p1).len(), c, 2u32, Enc::Bytes(encode_utf8(x)));
            lemma_fold_single(field_at(2u32, Enc::Bytes(encode_utf8(x)), q1), m1, step);
            reveal(replacement_stop_applied);
            encode_utf8_valid_utf8(x);
            encode_utf8_decode_utf8(x);
            assert(replacement_stop_applied(data, field_at(2u32, Enc::Bytes(encode_utf8(x)), q1), m1, c) == Ok::<SpecReplacementStop, ErrorKind>(m2));
        },
        None => {
                assert(p1 =~= Seq::<(u32, Enc)>::empty());
            },
    }
}

proof fn lemma_replacement_stop_fold(data: Seq<u8>, s: nat, m: SpecReplacementStop, c: nat)
    requires
        replacement_stop_raw_ok(m, c),
        c + 1 >= 1,
        s + enc_all(replacement_stop_encs(m)).len() <= data.len() <= usize::MAX,
        data.subrange(s as int, (s + enc_all(replacement_stop_encs(m)).len()) as int) == enc_all(replacement_stop_encs(m)),
    ensures
        fold_fields(fields_at(replacement_stop_encs(m), s), replacement_stop_default(), replacement_stop_step(data, c)) == Ok::<
            SpecReplacementStop,
            ErrorKind,
        >(m),
{
    let es = replacement_stop_encs(m);
    let step = replacement_stop_step(data, c);
    let p0 = replacement_stop_travel_time_to_stop_part(m);
    let p1 = replacement_stop_stop_id_part(m);
    let r1 = p1;
    let r0 = p0 + r1;
    assert(es == r0);
    let m0 = replacement_stop_default();
    let q0 = s;
    let m1 = SpecReplacementStop { travel_time_to_stop: m.travel_time_to_stop, ..replacement_stop_default() };
    let q1 = q0 + enc_all(p0).len();
    assert(fold_fields(fields_at(r0, q0), m0, step) == fold_fields(fields_at(r1, q1), m1, step)
        && q1 + enc_all(r1).len() <= data.len()
        && data.subrange(q1 as int, (q1 + enc_all(r1).len()) as int) == enc_all(r1)) by {
        lemma_enc_add(p0, r1, q0);
        lemma_subrange_split(data, q0, enc_all(p0), enc_all(r1));
        lemma_fold_add(fields_at(p0, q0), fields_at(r1, q1), m0, step);
        lemma_replacement_stop_travel_time_to_stop_read(data, q0, m, c);
    }
    let m2 = SpecReplacementStop { travel_time_to_stop: m.travel_time_to_stop, stop_id: m.stop_id, ..replacement_stop_default() };
    let q2 = q1 + enc_all(p1).len();
    lemma_replacement_stop_stop_id_read(data, q1, m, c);
    assert(m2 == m);
}

/// Decoding the bytes of a `ReplacementStop` gives it back.
pub proof fn lemma_replacement_stop_decoded(data: Seq<u8>, s: nat, m: SpecReplacementStop, ctx: nat)
    requires
        replacement_stop_raw_ok(m, (ctx - 1) as nat),
        ctx >= 1,
        s + replacement_stop_encoded(m).len() <= data.len() <= usize::MAX,
        data.subrange(s as int, (s + replacement_stop_encoded(m).len()) as int) == replacement_stop_encoded(m),
    ensures
        replacement_stop_merged(data, s, s + replacement_stop_encoded(m).len(), ctx, replacement_stop_default()) == Ok::<
            SpecReplacementStop,
            ErrorKind,
        >(m),
{
    lemma_replacement_stop_encs(m);
    lemma_fields_read(data, s, replacement_stop_encs(m), (ctx - 1) as nat);
    lemma_replacement_stop_fold(data, s, m, (ctx - 1) as nat);
}


/// Decoding the wire bytes of a feed message gives the message back, for
/// every message whose bytes fit in memory and whose parts kept as raw bytes
/// are messages of their kind (which decoding checks, with the nesting budget
/// that their depth leaves).
pub proof fn lemma_decode_encoded(m: SpecFeedMessage)
    requires
        feed_message_raw_ok(m, 100),
        feed_message_encoded(m).len() <= usize::MAX,
    ensures
        spec_decode_feed(feed_message_encoded(m)) == Ok::<SpecFeedMessage, ErrorKind>(m),
{
    let d = feed_message_encoded(m);
    assert(d.subrange(0, d.len() as int) =~= d);
    lemma_feed_message_decoded(d, 0, m, 101);
}

} // verus!
