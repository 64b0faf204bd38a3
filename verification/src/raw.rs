//! Messages of the schema whose content the library never reads (shapes,
//! stops, images, trip and stop-time properties, carriage details). They are
//! checked against their schema as any message is, and kept as the bytes
//! they were sent as.

use crate::values::{as_fixed32, as_fixed64, as_range, as_string, as_varint, get_fixed32, get_fixed64, get_range, get_string, get_varint};
use crate::wire::{fields_within, lemma_fields_within, spec_fields, split_fields, ErrorKind, Field, ParseError};
use vstd::prelude::*;

verus! {

/// The message types that are only checked.
#[derive(PartialEq, Eq, Structural, Clone, Copy)]
pub enum RawKind {
    Shape,
    Stop,
    TranslatedString,
    Translation,
    TranslatedImage,
    LocalizedImage,
    TripProperties,
    StopTimeProperties,
    CarriageDetails,
}

/// What the schema gives a field: a scalar by its wire type, a string, or a
/// nested message.
#[derive(PartialEq, Eq, Structural, Clone, Copy)]
pub enum SchemaType {
    Varint,
    Fixed32,
    Fixed64,
    Text,
    Message(RawKind),
}

/// The schema of the checked message types: the type of each known field.
pub open spec fn raw_schema(k: RawKind, tag: u32) -> Option<SchemaType> {
    match k {
        RawKind::Shape => if tag == 1 || tag == 2 {
            Some(SchemaType::Text)
        } else {
            None
        },
        RawKind::Stop => if tag == 1 || tag == 8 || tag == 11 || tag == 12 || tag == 14 {
            Some(SchemaType::Text)
        } else if tag == 2 || tag == 3 || tag == 4 || tag == 5 || tag == 9 || tag == 15 {
            Some(SchemaType::Message(RawKind::TranslatedString))
        } else if tag == 6 || tag == 7 {
            Some(SchemaType::Fixed32)
        } else if tag == 13 {
            Some(SchemaType::Varint)
        } else {
            None
        },
        RawKind::TranslatedString => if tag == 1 {
            Some(SchemaType::Message(RawKind::Translation))
        } else {
            None
        },
        RawKind::Translation => if tag == 1 || tag == 2 {
            Some(SchemaType::Text)
        } else {
            None
        },
        RawKind::TranslatedImage => if tag == 1 {
            Some(SchemaType::Message(RawKind::LocalizedImage))
        } else {
            None
        },
        RawKind::LocalizedImage => if tag == 1 || tag == 2 || tag == 3 {
            Some(SchemaType::Text)
        } else {
            None
        },
        RawKind::TripProperties => if 1 <= tag <= 4 {
            Some(SchemaType::Text)
        } else {
            None
        },
        RawKind::StopTimeProperties => if tag == 1 {
            Some(SchemaType::Text)
        } else {
            None
        },
        RawKind::CarriageDetails => if tag == 1 || tag == 2 {
            Some(SchemaType::Text)
        } else if 3 <= tag <= 5 {
            Some(SchemaType::Varint)
        } else {
            None
        },
    }
}

fn schema_of(k: RawKind, tag: u32) -> (r: Option<SchemaType>)
    ensures
        r == raw_schema(k, tag),
{
    match k {
        RawKind::Shape => if tag == 1 || tag == 2 {
            Some(SchemaType::Text)
        } else {
            None
        },
        RawKind::Stop => if tag == 1 || tag == 8 || tag == 11 || tag == 12 || tag == 14 {
            Some(SchemaType::Text)
        } else if tag == 2 || tag == 3 || tag == 4 || tag == 5 || tag == 9 || tag == 15 {
            Some(SchemaType::Message(RawKind::TranslatedString))
        } else if tag == 6 || tag == 7 {
            Some(SchemaType::Fixed32)
        } else if tag == 13 {
            Some(SchemaType::Varint)
        } else {
            None
        },
        RawKind::TranslatedString => if tag == 1 {
            Some(SchemaType::Message(RawKind::Translation))
        } else {
            None
        },
        RawKind::Translation => if tag == 1 || tag == 2 {
            Some(SchemaType::Text)
        } else {
            None
        },
        RawKind::TranslatedImage => if tag == 1 {
            Some(SchemaType::Message(RawKind::LocalizedImage))
        } else {
            None
        },
        RawKind::LocalizedImage => if tag == 1 || tag == 2 || tag == 3 {
            Some(SchemaType::Text)
        } else {
            None
        },
        RawKind::TripProperties => if 1 <= tag && tag <= 4 {
            Some(SchemaType::Text)
        } else {
            None
        },
        RawKind::StopTimeProperties => if tag == 1 {
            Some(SchemaType::Text)
        } else {
            None
        },
        RawKind::CarriageDetails => if tag == 1 || tag == 2 {
            Some(SchemaType::Text)
        } else if 3 <= tag && tag <= 5 {
            Some(SchemaType::Varint)
        } else {
            None
        },
    }
}

/// Checking the body between `s` and `e` as a message of kind `k`, met with
/// nesting budget `ctx`: the budget must be above zero, and the fields are
/// read with one less.
pub open spec fn check_message(data: Seq<u8>, k: RawKind, s: nat, e: nat, ctx: nat) -> Result<
    (),
    ErrorKind,
>
    decreases ctx, 0nat, 0nat,
{
    if ctx == 0 {
        Err(ErrorKind::RecursionLimitReached)
    } else {
        match spec_fields(data, s, e, (ctx - 1) as nat) {
            Err(x) => Err(x),
            Ok(fs) => check_fields(data, k, fs, (ctx - 1) as nat),
        }
    }
}

/// Checking each known field against the schema, in order.
pub open spec fn check_fields(data: Seq<u8>, k: RawKind, fs: Seq<Field>, ctx: nat) -> Result<
    (),
    ErrorKind,
>
    decreases ctx, 1nat, fs.len(),
{
    if fs.len() == 0 {
        Ok(())
    } else {
        let v = fs[0].value;
        let first: Result<(), ErrorKind> = match raw_schema(k, fs[0].tag) {
            None => Ok(()),
            Some(SchemaType::Varint) => match as_varint(v) {
                Ok(_) => Ok(()),
                Err(x) => Err(x),
            },
            Some(SchemaType::Fixed32) => match as_fixed32(v) {
                Ok(_) => Ok(()),
                Err(x) => Err(x),
            },
            Some(SchemaType::Fixed64) => match as_fixed64(v) {
                Ok(_) => Ok(()),
                Err(x) => Err(x),
            },
            Some(SchemaType::Text) => match as_string(data, v) {
                Ok(_) => Ok(()),
                Err(x) => Err(x),
            },
            Some(SchemaType::Message(k2)) => match as_range(v) {
                Err(x) => Err(x),
                Ok((a, b)) => check_message(data, k2, a, b, ctx),
            },
        };
        match first {
            Err(x) => Err(x),
            Ok(_) => check_fields(data, k, fs.drop_first(), ctx),
        }
    }
}

fn check_message_exec(data: &[u8], k: RawKind, s: usize, e: usize, ctx: u32) -> (res: Result<
    (),
    ParseError,
>)
    requires
        s <= e <= data@.len(),
    ensures
        match res {
            Ok(_) => check_message(data@, k, s as nat, e as nat, ctx as nat) == Ok::<(), ErrorKind>(()),
            Err(x) => check_message(data@, k, s as nat, e as nat, ctx as nat) == Err::<(), ErrorKind>(
                x.kind(),
            ),
        },
    decreases ctx,
{
    if ctx == 0 {
        return Err(ParseError::RecursionLimitReached);
    }
    let _len = data.len();
    let fs = match split_fields(data, s, e, ctx - 1) {
        Ok(fs) => fs,
        Err(x) => {
            return Err(x);
        },
    };
    proof {
        lemma_fields_within(data@, s as nat, e as nat, (ctx - 1) as nat);
        assert(fs@.skip(0) =~= fs@);
    }
    let mut i: usize = 0;
    while i < fs.len()
        invariant
            0 <= i <= fs@.len(),
            s <= e <= data@.len(),
            ctx > 0,
            fields_within(fs@, s as nat, e as nat),
            spec_fields(data@, s as nat, e as nat, (ctx - 1) as nat) == Ok::<Seq<Field>, ErrorKind>(
                fs@,
            ),
            check_fields(data@, k, fs@, (ctx - 1) as nat) == check_fields(
                data@,
                k,
                fs@.skip(i as int),
                (ctx - 1) as nat,
            ),
        decreases fs@.len() - i,
    {
        let f = fs[i];
        proof {
            assert(fs@.skip(i as int).drop_first() =~= fs@.skip(i + 1));
            assert(fs@.skip(i as int)[0] == f);
        }
        match schema_of(k, f.tag) {
            None => {},
            Some(SchemaType::Varint) => {
                if let Err(x) = get_varint(f.value) {
                    return Err(x);
                }
            },
            Some(SchemaType::Fixed32) => {
                if let Err(x) = get_fixed32(f.value) {
                    return Err(x);
                }
            },
            Some(SchemaType::Fixed64) => {
                if let Err(x) = get_fixed64(f.value) {
                    return Err(x);
                }
            },
            Some(SchemaType::Text) => {
                if let Err(x) = get_string(data, f.value) {
                    return Err(x);
                }
            },
            Some(SchemaType::Message(k2)) => {
                let (a, b) = match get_range(f.value) {
                    Ok(r) => r,
                    Err(x) => {
                        return Err(x);
                    },
                };
                if let Err(x) = check_message_exec(data, k2, a, b, ctx - 1) {
                    return Err(x);
                }
            },
        }
        i += 1;
    }
    proof {
        assert(fs@.skip(fs@.len() as int) =~= Seq::<Field>::empty());
    }
    Ok(())
}

/// A message kept as bytes: the bodies of all its occurrences, one after the
/// other (which is how protocol buffers merge a message sent in parts).
pub struct RawMessage {
    pub bytes: Vec<u8>,
}

impl DeepView for RawMessage {
    type V = Seq<u8>;

    open spec fn deep_view(&self) -> Seq<u8> {
        self.bytes@
    }
}

impl RawMessage {
    pub fn new() -> (r: Self)
        ensures
            r.deep_view() == Seq::<u8>::empty(),
    {
        RawMessage { bytes: Vec::new() }
    }
}

/// One more occurrence of a message of kind `k`: checked, then appended.
pub open spec fn raw_merged(
    data: Seq<u8>,
    k: RawKind,
    s: nat,
    e: nat,
    ctx: nat,
    init: Seq<u8>,
) -> Result<Seq<u8>, ErrorKind> {
    match check_message(data, k, s, e, ctx) {
        Ok(_) => Ok(init + data.subrange(s as int, e as int)),
        Err(x) => Err(x),
    }
}

pub fn merge_raw(data: &[u8], k: RawKind, s: usize, e: usize, ctx: u32, m: &mut RawMessage) -> (res:
    Result<(), ParseError>)
    requires
        s <= e <= data@.len(),
    ensures
        match res {
            Ok(_) => raw_merged(data@, k, s as nat, e as nat, ctx as nat, old(m).deep_view()) == Ok::<
                Seq<u8>,
                ErrorKind,
            >(final(m).deep_view()),
            Err(x) => raw_merged(data@, k, s as nat, e as nat, ctx as nat, old(m).deep_view())
                == Err::<Seq<u8>, ErrorKind>(x.kind()),
        },
{
    if let Err(x) = check_message_exec(data, k, s, e, ctx) {
        return Err(x);
    }
    let mut body = vstd::slice::slice_to_vec(&data[s..e]);
    m.bytes.append(&mut body);
    Ok(())
}

} // verus!
