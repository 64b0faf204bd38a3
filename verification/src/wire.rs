//! The protocol-buffer wire format: varints, field keys, and the split of a
//! message body into its fields.

use prost::encoding::WireType;
use vstd::prelude::*;

verus! {

/// The value of the LEB128 varint at the start of `s`, read with at most
/// `budget` bytes, with the number of bytes it takes. When the budget runs
/// out at its last byte, that byte may only contribute one bit (so that ten
/// bytes never hold more than 64 bits).
pub open spec fn varint_prefix(s: Seq<u8>, budget: nat) -> Option<(nat, nat)>
    decreases budget,
{
    if budget == 0 || s.len() == 0 {
        None
    } else if s[0] < 128 {
        if budget == 1 && s[0] >= 2 {
            None
        } else {
            Some((s[0] as nat, 1nat))
        }
    } else {
        match varint_prefix(s.drop_first(), (budget - 1) as nat) {
            Some((v, n)) => Some(((s[0] - 128) as nat + 128 * v, n + 1)),
            None => None,
        }
    }
}

/// A protobuf varint at the start of `s`: its value and its length in bytes.
pub open spec fn spec_varint(s: Seq<u8>) -> Option<(nat, nat)> {
    varint_prefix(s, 10)
}

/// The LEB128 bytes of `v`: seven bits per byte, low bits first, the high
/// bit set on every byte but the last.
pub open spec fn varint_bytes(v: nat) -> Seq<u8>
    decreases v,
{
    if v < 128 {
        seq![v as u8]
    } else {
        seq![(v % 128 + 128) as u8] + varint_bytes(v / 128)
    }
}

pub proof fn lemma_varint_prefix_len(s: Seq<u8>, budget: nat)
    ensures
        varint_prefix(s, budget) matches Some((v, n)) ==> 1 <= n <= budget && n <= s.len(),
    decreases budget,
{
    if budget > 0 && s.len() > 0 && s[0] >= 128 {
        lemma_varint_prefix_len(s.drop_first(), (budget - 1) as nat);
    }
}

/// The decoding error of `prost`, carried as it is.
#[verifier::external_type_specification]
#[verifier::external_body]
pub struct ExProstDecodeError(prost::DecodeError);

/// Calls `prost::encoding::decode_varint` on `buf`. The contract claims that it
/// reads the varint that `spec_varint` describes and returns the number of
/// bytes left after it, and that it fails exactly where `spec_varint` has no
/// value.
#[verifier::external_body]
fn prost_decode_varint(buf: &[u8]) -> (res: Result<(u64, usize), prost::DecodeError>)
    ensures
        match res {
            Ok((v, rest)) => rest <= buf@.len() && spec_varint(buf@) == Some(
                (v as nat, (buf@.len() - rest) as nat),
            ),
            Err(_) => spec_varint(buf@) is None,
        },
{
    let mut rest: &[u8] = buf;
    match prost::encoding::decode_varint(&mut rest) {
        Ok(v) => Ok((v, rest.len())),
        Err(e) => Err(e),
    }
}

/// Calls `prost::encoding::encode_varint`. The contract claims that it appends
/// exactly the LEB128 bytes of `value`.
#[verifier::external_body]
pub(crate) fn prost_encode_varint(value: u64, buf: &mut Vec<u8>)
    ensures
        final(buf)@ == old(buf)@ + varint_bytes(value as nat),
{
    prost::encoding::encode_varint(value, buf);
}


/// Calls `prost::encoding::encode_key` with the wire type numbered `wt`. The
/// contract claims that it appends exactly the LEB128 bytes of the key,
/// `tag * 8 + wt`; the tag is held to the range prost asserts.
#[verifier::external_body]
pub(crate) fn prost_encode_key(tag: u32, wt: u32, buf: &mut Vec<u8>)
    requires
        1 <= tag <= 536870911,
        wt <= 5,
    ensures
        final(buf)@ == old(buf)@ + varint_bytes((tag * 8 + wt) as nat),
{
    let wire_type = match wt {
        0 => WireType::Varint,
        1 => WireType::SixtyFourBit,
        2 => WireType::LengthDelimited,
        3 => WireType::StartGroup,
        4 => WireType::EndGroup,
        _ => WireType::ThirtyTwoBit,
    };
    prost::encoding::encode_key(tag, wire_type, buf);
}

/// A field key at the start of `s`: the field number, the wire type and the
/// length of the key. There is none where the varint is missing, exceeds 32
/// bits, names a wire type above 5, or names field number 0.
pub open spec fn spec_key(s: Seq<u8>) -> Option<(u32, u8, nat)> {
    match spec_varint(s) {
        None => None,
        Some((key, n)) => if key > u32::MAX || key % 8 > 5 || key / 8 < 1 {
            None
        } else {
            Some(((key / 8) as u32, (key % 8) as u8, n))
        },
    }
}

pub proof fn lemma_key_len(s: Seq<u8>)
    ensures
        spec_key(s) matches Some((t, w, n)) ==> 1 <= n <= s.len(),
{
    lemma_varint_prefix_len(s, 10);
}

/// Calls `prost::encoding::decode_key` on `buf`. The contract claims that it
/// reads the key that `spec_key` describes (its wire type given by number),
/// returns the number of bytes left after it, and fails exactly where
/// `spec_key` has none.
#[verifier::external_body]
fn prost_decode_key(buf: &[u8]) -> (res: Result<(u32, u8, usize), prost::DecodeError>)
    ensures
        match res {
            Ok((tag, wt, rest)) => rest <= buf@.len() && spec_key(buf@) == Some(
                (tag, wt, (buf@.len() - rest) as nat),
            ),
            Err(_) => spec_key(buf@) is None,
        },
{
    let mut rest: &[u8] = buf;
    match prost::encoding::decode_key(&mut rest) {
        Ok((tag, WireType::Varint)) => Ok((tag, 0, rest.len())),
        Ok((tag, WireType::SixtyFourBit)) => Ok((tag, 1, rest.len())),
        Ok((tag, WireType::LengthDelimited)) => Ok((tag, 2, rest.len())),
        Ok((tag, WireType::StartGroup)) => Ok((tag, 3, rest.len())),
        Ok((tag, WireType::EndGroup)) => Ok((tag, 4, rest.len())),
        Ok((tag, WireType::ThirtyTwoBit)) => Ok((tag, 5, rest.len())),
        Err(e) => Err(e),
    }
}

/// Why a feed could not be decoded.
pub enum ParseError {
    /// A varint or a field key that `prost` refused.
    Wire(prost::DecodeError),
    /// A length or a fixed-width value runs past the end of its message.
    BufferUnderflow,
    /// An end-group key that closes no open group.
    UnexpectedEndGroupTag,
    /// Groups nested deeper than the decoder allows.
    RecursionLimitReached,
    /// A known field with another wire type than its schema gives it.
    UnexpectedWireType,
    /// A string field whose bytes are not UTF-8.
    InvalidString,
}

/// The kind of a `ParseError`, without what `prost` says of it.
#[derive(Debug, PartialEq, Eq, Structural, Clone, Copy)]
pub enum ErrorKind {
    Wire,
    BufferUnderflow,
    UnexpectedEndGroupTag,
    RecursionLimitReached,
    UnexpectedWireType,
    InvalidString,
}

impl ParseError {
    pub open spec fn kind(&self) -> ErrorKind {
        match self {
            ParseError::Wire(_) => ErrorKind::Wire,
            ParseError::BufferUnderflow => ErrorKind::BufferUnderflow,
            ParseError::UnexpectedEndGroupTag => ErrorKind::UnexpectedEndGroupTag,
            ParseError::RecursionLimitReached => ErrorKind::RecursionLimitReached,
            ParseError::UnexpectedWireType => ErrorKind::UnexpectedWireType,
            ParseError::InvalidString => ErrorKind::InvalidString,
        }
    }
}

/// The value a field carries on the wire. A length-delimited value is kept as
/// the bounds of its bytes in the buffer being decoded; a group is only
/// checked and skipped.
#[derive(Debug, PartialEq, Eq, Structural, Clone, Copy)]
pub enum WireValue {
    Varint(u64),
    Fixed64(u64),
    Bytes(usize, usize),
    Group,
    Fixed32(u32),
}

/// One field of a message body: its number and its wire value.
#[derive(Debug, PartialEq, Eq, Structural, Clone, Copy)]
pub struct Field {
    pub tag: u32,
    pub value: WireValue,
}

/// Four bytes from `p` on, little-endian.
pub open spec fn le_u32(s: Seq<u8>, p: int) -> u32 {
    (s[p] + 256 * s[p + 1] + 65536 * s[p + 2] + 16777216 * s[p + 3]) as u32
}

/// Eight bytes from `p` on, little-endian.
pub open spec fn le_u64(s: Seq<u8>, p: int) -> u64 {
    (le_u32(s, p) + 4294967296 * le_u32(s, p + 4)) as u64
}

/// Where a scalar value of wire type `wt` that starts at `p` ends (the value
/// of a field whose key is already read).
pub open spec fn spec_skip_scalar(data: Seq<u8>, p: nat, end: nat, wt: u8) -> Result<
    nat,
    ErrorKind,
> {
    if wt == 0 {
        match spec_varint(data.subrange(p as int, end as int)) {
            None => Err(ErrorKind::Wire),
            Some((v, m)) => Ok(p + m),
        }
    } else if wt == 1 {
        if end - p < 8 {
            Err(ErrorKind::BufferUnderflow)
        } else {
            Ok(p + 8)
        }
    } else if wt == 2 {
        match spec_varint(data.subrange(p as int, end as int)) {
            None => Err(ErrorKind::Wire),
            Some((len, m)) => if len > end - (p + m) {
                Err(ErrorKind::BufferUnderflow)
            } else {
                Ok(p + m + len)
            },
        }
    } else if end - p < 4 {
        Err(ErrorKind::BufferUnderflow)
    } else {
        Ok(p + 4)
    }
}

/// Skipping the rest of a group. `stack` holds the field numbers of the
/// groups still open, innermost last; `ctx` is the nesting budget that the
/// outermost group was met with: a field inside `d` open groups needs a budget
/// above `d`.
pub open spec fn spec_skip_group(
    data: Seq<u8>,
    pos: nat,
    end: nat,
    stack: Seq<u32>,
    ctx: nat,
) -> Result<nat, ErrorKind>
    recommends
        pos <= end <= data.len(),
        stack.len() > 0,
    decreases end - pos,
{
    if pos >= end || end > data.len() {
        Err(ErrorKind::Wire)
    } else {
        match spec_key(data.subrange(pos as int, end as int)) {
            None => Err(ErrorKind::Wire),
            Some((tag, wt, n)) => {
                proof {
                    lemma_key_len(data.subrange(pos as int, end as int));
                }
                let p = pos + n;
                let d = stack.len();
                if wt == 4 {
                    if d == 0 || tag != stack.last() {
                        Err(ErrorKind::UnexpectedEndGroupTag)
                    } else if d == 1 {
                        Ok(p)
                    } else {
                        spec_skip_group(data, p, end, stack.drop_last(), ctx)
                    }
                } else if ctx <= d {
                    Err(ErrorKind::RecursionLimitReached)
                } else if wt == 3 {
                    spec_skip_group(data, p, end, stack.push(tag), ctx)
                } else {
                    proof {
                        lemma_skip_scalar_bounds(data, p, end, wt);
                    }
                    match spec_skip_scalar(data, p, end, wt) {
                        Err(e) => Err(e),
                        Ok(q) => spec_skip_group(data, q, end, stack, ctx),
                    }
                }
            },
        }
    }
}

pub proof fn lemma_skip_scalar_bounds(data: Seq<u8>, p: nat, end: nat, wt: u8)
    requires
        p <= end <= data.len(),
    ensures
        spec_skip_scalar(data, p, end, wt) matches Ok(q) ==> p <= q <= end,
{
    lemma_varint_prefix_len(data.subrange(p as int, end as int), 10);
}

pub proof fn lemma_skip_group_bounds(
    data: Seq<u8>,
    pos: nat,
    end: nat,
    stack: Seq<u32>,
    ctx: nat,
)
    requires
        pos <= end <= data.len(),
    ensures
        spec_skip_group(data, pos, end, stack, ctx) matches Ok(q) ==> pos < q <= end,
    decreases end - pos,
{
    if pos < end {
        let s = data.subrange(pos as int, end as int);
        lemma_key_len(s);
        if let Some((tag, wt, n)) = spec_key(s) {
            let p = pos + n;
            let d = stack.len();
            if wt == 4 {
                if d > 1 && tag == stack.last() {
                    lemma_skip_group_bounds(data, p, end, stack.drop_last(), ctx);
                }
            } else if ctx > d {
                if wt == 3 {
                    lemma_skip_group_bounds(data, p, end, stack.push(tag), ctx);
                } else {
                    lemma_skip_scalar_bounds(data, p, end, wt);
                    if let Ok(q) = spec_skip_scalar(data, p, end, wt) {
                        lemma_skip_group_bounds(data, q, end, stack, ctx);
                    }
                }
            }
        }
    }
}


/// The field that starts at `pos`, with the position just after it. Groups
/// are checked and skipped; a group needs a nesting budget above zero.
#[verifier::opaque]
pub open spec fn spec_field(data: Seq<u8>, pos: nat, end: nat, ctx: nat) -> Result<
    (Field, nat),
    ErrorKind,
>
    recommends
        pos < end <= data.len(),
{
    match spec_key(data.subrange(pos as int, end as int)) {
        None => Err(ErrorKind::Wire),
        Some((tag, wt, n)) => {
            let p = pos + n;
            if wt == 0 {
                match spec_varint(data.subrange(p as int, end as int)) {
                    None => Err(ErrorKind::Wire),
                    Some((v, m)) => Ok((Field { tag, value: WireValue::Varint(v as u64) }, p + m)),
                }
            } else if wt == 1 {
                if end - p < 8 {
                    Err(ErrorKind::BufferUnderflow)
                } else {
                    Ok((Field { tag, value: WireValue::Fixed64(le_u64(data, p as int)) }, p + 8))
                }
            } else if wt == 2 {
                match spec_varint(data.subrange(p as int, end as int)) {
                    None => Err(ErrorKind::Wire),
                    Some((len, m)) => if len > end - (p + m) {
                        Err(ErrorKind::BufferUnderflow)
                    } else {
                        Ok(
                            (
                                Field {
                                    tag,
                                    value: WireValue::Bytes((p + m) as usize, (p + m + len) as usize),
                                },
                                p + m + len,
                            ),
                        )
                    },
                }
            } else if wt == 3 {
                if ctx == 0 {
                    Err(ErrorKind::RecursionLimitReached)
                } else {
                    match spec_skip_group(data, p, end, seq![tag], ctx) {
                        Err(e) => Err(e),
                        Ok(q) => Ok((Field { tag, value: WireValue::Group }, q)),
                    }
                }
            } else if wt == 4 {
                Err(ErrorKind::UnexpectedEndGroupTag)
            } else if end - p < 4 {
                Err(ErrorKind::BufferUnderflow)
            } else {
                Ok((Field { tag, value: WireValue::Fixed32(le_u32(data, p as int)) }, p + 4))
            }
        },
    }
}

pub proof fn lemma_field_bounds(data: Seq<u8>, pos: nat, end: nat, ctx: nat)
    requires
        pos < end <= data.len(),
    ensures
        spec_field(data, pos, end, ctx) matches Ok((f, q)) ==> {
            &&& pos < q <= end
            &&& (data.len() <= usize::MAX ==> (f.value matches WireValue::Bytes(s, e) ==> pos < s
                <= e <= end))
        },
{
    reveal(spec_field);
    let s = data.subrange(pos as int, end as int);
    lemma_key_len(s);
    if let Some((tag, wt, n)) = spec_key(s) {
        let p = pos + n;
        lemma_varint_prefix_len(data.subrange(p as int, end as int), 10);
        if wt == 3 && ctx > 0 {
            lemma_skip_group_bounds(data, p, end, seq![tag], ctx);
        }
    }
}

/// The fields of the message body that lies between `pos` and `end`, in
/// the order they come.
pub open spec fn spec_fields(data: Seq<u8>, pos: nat, end: nat, ctx: nat) -> Result<
    Seq<Field>,
    ErrorKind,
>
    decreases end - pos,
{
    if pos >= end {
        Ok(seq![])
    } else if end > data.len() {
        Err(ErrorKind::BufferUnderflow)
    } else {
        match spec_field(data, pos, end, ctx) {
            Err(e) => Err(e),
            Ok((f, q)) => {
                proof {
                    lemma_field_bounds(data, pos, end, ctx);
                }
                match spec_fields(data, q, end, ctx) {
                    Ok(rest) => Ok(seq![f] + rest),
                    Err(e) => Err(e),
                }
            },
        }
    }
}

/// Every length-delimited value of the fields lies between `start` and `end`.
pub open spec fn fields_within(fields: Seq<Field>, start: nat, end: nat) -> bool {
    forall|i: int|
        0 <= i < fields.len() ==> (#[trigger] fields[i].value matches WireValue::Bytes(s, e) ==> start
            <= s <= e <= end)
}

pub proof fn lemma_fields_within(data: Seq<u8>, pos: nat, end: nat, ctx: nat)
    requires
        end <= data.len() <= usize::MAX,
    ensures
        spec_fields(data, pos, end, ctx) matches Ok(fs) ==> fields_within(fs, pos, end),
    decreases end - pos,
{
    if pos < end {
        lemma_field_bounds(data, pos, end, ctx);
        if let Ok((f, q)) = spec_field(data, pos, end, ctx) {
            lemma_fields_within(data, q, end, ctx);
            if let Ok(rest) = spec_fields(data, q, end, ctx) {
                let fs = seq![f] + rest;
                assert forall|i: int| 0 <= i < fs.len() implies (#[trigger] fs[i].value matches WireValue::Bytes(
                    s,
                    e,
                ) ==> pos <= s <= e <= end) by {
                    if i > 0 {
                        assert(fs[i] == rest[i - 1]);
                    }
                }
            }
        }
    }
}

fn read_key(data: &[u8], pos: usize, end: usize) -> (res: Result<(u32, u8, usize), ParseError>)
    requires
        pos <= end <= data@.len(),
    ensures
        match res {
            Ok((t, w, p)) => pos < p <= end && spec_key(data@.subrange(pos as int, end as int))
                == Some((t, w, (p - pos) as nat)),
            Err(e) => spec_key(data@.subrange(pos as int, end as int)) is None && e.kind()
                == ErrorKind::Wire,
        },
{
    let sub = &data[pos..end];
    match prost_decode_key(sub) {
        Ok((t, w, rest)) => {
            proof {
                lemma_key_len(sub@);
            }
            Ok((t, w, end - rest))
        },
        Err(e) => Err(ParseError::Wire(e)),
    }
}

fn read_varint(data: &[u8], pos: usize, end: usize) -> (res: Result<(u64, usize), ParseError>)
    requires
        pos <= end <= data@.len(),
    ensures
        match res {
            Ok((v, p)) => pos < p <= end && spec_varint(data@.subrange(pos as int, end as int))
                == Some((v as nat, (p - pos) as nat)),
            Err(e) => spec_varint(data@.subrange(pos as int, end as int)) is None && e.kind()
                == ErrorKind::Wire,
        },
{
    let sub = &data[pos..end];
    match prost_decode_varint(sub) {
        Ok((v, rest)) => {
            proof {
                lemma_varint_prefix_len(sub@, 10);
            }
            Ok((v, end - rest))
        },
        Err(e) => Err(ParseError::Wire(e)),
    }
}

fn read_le_u32(data: &[u8], p: usize) -> (r: u32)
    requires
        p + 4 <= data@.len(),
    ensures
        r == le_u32(data@, p as int),
{
    let b0 = data[p] as u32;
    let b1 = data[p + 1] as u32;
    let b2 = data[p + 2] as u32;
    let b3 = data[p + 3] as u32;
    b0 + 256 * b1 + 65536 * b2 + 16777216 * b3
}

fn read_le_u64(data: &[u8], p: usize) -> (r: u64)
    requires
        p + 8 <= data@.len(),
    ensures
        r == le_u64(data@, p as int),
{
    let _n = data.len();
    let lo = read_le_u32(data, p) as u64;
    let hi = read_le_u32(data, p + 4) as u64;
    lo + 4294967296 * hi
}

fn skip_scalar(data: &[u8], p: usize, end: usize, wt: u8) -> (res: Result<usize, ParseError>)
    requires
        p <= end <= data@.len(),
    ensures
        match res {
            Ok(q) => spec_skip_scalar(data@, p as nat, end as nat, wt) == Ok::<nat, ErrorKind>(
                q as nat,
            ),
            Err(e) => spec_skip_scalar(data@, p as nat, end as nat, wt) == Err::<nat, ErrorKind>(
                e.kind(),
            ),
        },
{
    if wt == 0 {
        match read_varint(data, p, end) {
            Ok((_, q)) => Ok(q),
            Err(e) => Err(e),
        }
    } else if wt == 1 {
        if end - p < 8 {
            Err(ParseError::BufferUnderflow)
        } else {
            Ok(p + 8)
        }
    } else if wt == 2 {
        match read_varint(data, p, end) {
            Ok((len, q)) => {
                if len > (end - q) as u64 {
                    Err(ParseError::BufferUnderflow)
                } else {
                    Ok(q + len as usize)
                }
            },
            Err(e) => Err(e),
        }
    } else if end - p < 4 {
        Err(ParseError::BufferUnderflow)
    } else {
        Ok(p + 4)
    }
}

fn skip_group(data: &[u8], pos: usize, end: usize, tag: u32, ctx: u32) -> (res: Result<
    usize,
    ParseError,
>)
    requires
        pos <= end <= data@.len(),
        ctx > 0,
    ensures
        match res {
            Ok(q) => spec_skip_group(data@, pos as nat, end as nat, seq![tag], ctx as nat) == Ok::<
                nat,
                ErrorKind,
            >(q as nat),
            Err(e) => spec_skip_group(data@, pos as nat, end as nat, seq![tag], ctx as nat) == Err::<
                nat,
                ErrorKind,
            >(e.kind()),
        },
{
    let mut stack: Vec<u32> = Vec::new();
    stack.push(tag);
    assert(stack@ =~= seq![tag]);
    let mut p = pos;
    loop
        invariant
            pos <= p <= end <= data@.len(),
            stack@.len() > 0,
            stack@.len() <= ctx,
            spec_skip_group(data@, p as nat, end as nat, stack@, ctx as nat) == spec_skip_group(
                data@,
                pos as nat,
                end as nat,
                seq![tag],
                ctx as nat,
            ),
        decreases end - p,
    {
        proof {
            lemma_key_len(data@.subrange(p as int, end as int));
        }
        match read_key(data, p, end) {
            Err(e) => {
                return Err(e);
            },
            Ok((t, wt, np)) => {
                let d = stack.len();
                if wt == 4 {
                    if t != stack[d - 1] {
                        return Err(ParseError::UnexpectedEndGroupTag);
                    } else if d == 1 {
                        return Ok(np);
                    } else {
                        let ghost before = stack@;
                        stack.pop();
                        assert(stack@ =~= before.drop_last());
                        p = np;
                    }
                } else if (ctx as usize) <= d {
                    return Err(ParseError::RecursionLimitReached);
                } else if wt == 3 {
                    stack.push(t);
                    p = np;
                } else {
                    proof {
                        lemma_skip_scalar_bounds(data@, np as nat, end as nat, wt);
                    }
                    match skip_scalar(data, np, end, wt) {
                        Err(e) => {
                            return Err(e);
                        },
                        Ok(q) => {
                            p = q;
                        },
                    }
                }
            },
        }
    }
}


fn read_field(data: &[u8], pos: usize, end: usize, ctx: u32) -> (res: Result<
    (Field, usize),
    ParseError,
>)
    requires
        pos < end <= data@.len(),
    ensures
        match res {
            Ok((f, q)) => spec_field(data@, pos as nat, end as nat, ctx as nat) == Ok::<
                (Field, nat),
                ErrorKind,
            >((f, q as nat)),
            Err(e) => spec_field(data@, pos as nat, end as nat, ctx as nat) == Err::<
                (Field, nat),
                ErrorKind,
            >(e.kind()),
        },
{
    proof {
        reveal(spec_field);
    }
    let (tag, wt, p) = match read_key(data, pos, end) {
        Ok(k) => k,
        Err(e) => {
            return Err(e);
        },
    };
    if wt == 0 {
        match read_varint(data, p, end) {
            Ok((v, q)) => Ok((Field { tag, value: WireValue::Varint(v) }, q)),
            Err(e) => Err(e),
        }
    } else if wt == 1 {
        if end - p < 8 {
            Err(ParseError::BufferUnderflow)
        } else {
            Ok((Field { tag, value: WireValue::Fixed64(read_le_u64(data, p)) }, p + 8))
        }
    } else if wt == 2 {
        match read_varint(data, p, end) {
            Ok((len, q)) => {
                if len > (end - q) as u64 {
                    Err(ParseError::BufferUnderflow)
                } else {
                    let e = q + len as usize;
                    Ok((Field { tag, value: WireValue::Bytes(q, e) }, e))
                }
            },
            Err(e) => Err(e),
        }
    } else if wt == 3 {
        if ctx == 0 {
            Err(ParseError::RecursionLimitReached)
        } else {
            match skip_group(data, p, end, tag, ctx) {
                Ok(q) => Ok((Field { tag, value: WireValue::Group }, q)),
                Err(e) => Err(e),
            }
        }
    } else if wt == 4 {
        Err(ParseError::UnexpectedEndGroupTag)
    } else if end - p < 4 {
        Err(ParseError::BufferUnderflow)
    } else {
        Ok((Field { tag, value: WireValue::Fixed32(read_le_u32(data, p)) }, p + 4))
    }
}

/// Splits the message body between `start` and `end` into its fields.
pub fn split_fields(data: &[u8], start: usize, end: usize, ctx: u32) -> (res: Result<
    Vec<Field>,
    ParseError,
>)
    requires
        start <= end <= data@.len(),
    ensures
        match res {
            Ok(fs) => spec_fields(data@, start as nat, end as nat, ctx as nat) == Ok::<
                Seq<Field>,
                ErrorKind,
            >(fs@),
            Err(e) => spec_fields(data@, start as nat, end as nat, ctx as nat) == Err::<
                Seq<Field>,
                ErrorKind,
            >(e.kind()),
        },
{
    let mut fields: Vec<Field> = Vec::new();
    let mut p = start;
    while p < end
        invariant
            start <= p <= end <= data@.len(),
            spec_fields(data@, start as nat, end as nat, ctx as nat) == match spec_fields(
                data@,
                p as nat,
                end as nat,
                ctx as nat,
            ) {
                Ok(rest) => Ok(fields@ + rest),
                Err(e) => Err(e),
            },
        decreases end - p,
    {
        proof {
            lemma_field_bounds(data@, p as nat, end as nat, ctx as nat);
        }
        match read_field(data, p, end, ctx) {
            Err(e) => {
                return Err(e);
            },
            Ok((f, q)) => {
                let ghost before = fields@;
                fields.push(f);
                proof {
                    if let Ok(rest) = spec_fields(data@, q as nat, end as nat, ctx as nat) {
                        assert(before + (seq![f] + rest) =~= fields@ + rest);
                    }
                }
                p = q;
            },
        }
    }
    assert(fields@ + Seq::<Field>::empty() =~= fields@);
    Ok(fields)
}

} // verus!
