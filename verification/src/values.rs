//! What a field's wire value means for the type its schema gives it.

use crate::wire::{ErrorKind, Field, ParseError, WireValue};
use vstd::prelude::*;
use vstd::utf8::{decode_utf8, valid_utf8};

verus! {

/// Folds `step` over the fields in order, stopping at the first error.
pub open spec fn fold_fields<T>(
    fs: Seq<Field>,
    init: T,
    step: spec_fn(T, Field) -> Result<T, ErrorKind>,
) -> Result<T, ErrorKind>
    decreases fs.len(),
{
    if fs.len() == 0 {
        Ok(init)
    } else {
        match step(init, fs[0]) {
            Ok(t) => fold_fields(fs.drop_first(), t, step),
            Err(e) => Err(e),
        }
    }
}

pub proof fn lemma_fold_step<T>(
    fs: Seq<Field>,
    i: int,
    init: T,
    cur: T,
    step: spec_fn(T, Field) -> Result<T, ErrorKind>,
)
    requires
        0 <= i < fs.len(),
        fold_fields(fs, init, step) == fold_fields(fs.skip(i), cur, step),
    ensures
        match step(cur, fs[i]) {
            Ok(t) => fold_fields(fs, init, step) == fold_fields(fs.skip(i + 1), t, step),
            Err(e) => fold_fields(fs, init, step) == Err::<T, ErrorKind>(e),
        },
{
    assert(fs.skip(i).drop_first() =~= fs.skip(i + 1));
    assert(fs.skip(i)[0] == fs[i]);
}

/// A length-delimited value lies inside the buffer.
pub open spec fn value_in(v: WireValue, len: nat) -> bool {
    v matches WireValue::Bytes(s, e) ==> s <= e <= len
}

pub open spec fn as_varint(v: WireValue) -> Result<u64, ErrorKind> {
    match v {
        WireValue::Varint(x) => Ok(x),
        _ => Err(ErrorKind::UnexpectedWireType),
    }
}

pub open spec fn as_fixed32(v: WireValue) -> Result<u32, ErrorKind> {
    match v {
        WireValue::Fixed32(x) => Ok(x),
        _ => Err(ErrorKind::UnexpectedWireType),
    }
}

pub open spec fn as_fixed64(v: WireValue) -> Result<u64, ErrorKind> {
    match v {
        WireValue::Fixed64(x) => Ok(x),
        _ => Err(ErrorKind::UnexpectedWireType),
    }
}

pub open spec fn as_range(v: WireValue) -> Result<(nat, nat), ErrorKind> {
    match v {
        WireValue::Bytes(s, e) => Ok((s as nat, e as nat)),
        _ => Err(ErrorKind::UnexpectedWireType),
    }
}

/// A string field: its bytes must be UTF-8.
pub open spec fn as_string(data: Seq<u8>, v: WireValue) -> Result<Seq<char>, ErrorKind> {
    match v {
        WireValue::Bytes(s, e) => {
            let b = data.subrange(s as int, e as int);
            if valid_utf8(b) {
                Ok(decode_utf8(b))
            } else {
                Err(ErrorKind::InvalidString)
            }
        },
        _ => Err(ErrorKind::UnexpectedWireType),
    }
}

pub fn get_varint(v: WireValue) -> (res: Result<u64, ParseError>)
    ensures
        match res {
            Ok(x) => as_varint(v) == Ok::<u64, ErrorKind>(x),
            Err(e) => as_varint(v) == Err::<u64, ErrorKind>(e.kind()),
        },
{
    match v {
        WireValue::Varint(x) => Ok(x),
        _ => Err(ParseError::UnexpectedWireType),
    }
}

pub fn get_fixed32(v: WireValue) -> (res: Result<u32, ParseError>)
    ensures
        match res {
            Ok(x) => as_fixed32(v) == Ok::<u32, ErrorKind>(x),
            Err(e) => as_fixed32(v) == Err::<u32, ErrorKind>(e.kind()),
        },
{
    match v {
        WireValue::Fixed32(x) => Ok(x),
        _ => Err(ParseError::UnexpectedWireType),
    }
}

pub fn get_fixed64(v: WireValue) -> (res: Result<u64, ParseError>)
    ensures
        match res {
            Ok(x) => as_fixed64(v) == Ok::<u64, ErrorKind>(x),
            Err(e) => as_fixed64(v) == Err::<u64, ErrorKind>(e.kind()),
        },
{
    match v {
        WireValue::Fixed64(x) => Ok(x),
        _ => Err(ParseError::UnexpectedWireType),
    }
}

pub fn get_range(v: WireValue) -> (res: Result<(usize, usize), ParseError>)
    ensures
        match res {
            Ok((s, e)) => as_range(v) == Ok::<(nat, nat), ErrorKind>((s as nat, e as nat)),
            Err(e) => as_range(v) == Err::<(nat, nat), ErrorKind>(e.kind()),
        },
{
    match v {
        WireValue::Bytes(s, e) => Ok((s, e)),
        _ => Err(ParseError::UnexpectedWireType),
    }
}

/// Calls `String::from_utf8`. The contract claims that it succeeds exactly on
/// UTF-8 bytes, and that the string then holds the characters they encode.
#[verifier::external_body]
fn string_from_utf8(bytes: Vec<u8>) -> (res: Option<String>)
    ensures
        res is Some <==> valid_utf8(bytes@),
        res matches Some(s) ==> s@ == decode_utf8(bytes@),
{
    match String::from_utf8(bytes) {
        Ok(s) => Some(s),
        Err(_) => None,
    }
}

pub fn get_string(data: &[u8], v: WireValue) -> (res: Result<String, ParseError>)
    requires
        value_in(v, data@.len()),
    ensures
        match res {
            Ok(s) => as_string(data@, v) == Ok::<Seq<char>, ErrorKind>(s@),
            Err(e) => as_string(data@, v) == Err::<Seq<char>, ErrorKind>(e.kind()),
        },
{
    match v {
        WireValue::Bytes(s, e) => {
            let bytes = vstd::slice::slice_to_vec(&data[s..e]);
            match string_from_utf8(bytes) {
                Some(st) => Ok(st),
                None => Err(ParseError::InvalidString),
            }
        },
        _ => Err(ParseError::UnexpectedWireType),
    }
}

} // verus!
