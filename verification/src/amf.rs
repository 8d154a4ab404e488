//! AMF-0 value codec: the tagged value tree, its canonical wire encoding, a
//! specification-level parser, and the verified encoder and decoder with
//! round-trip proofs.

use crate::error::Error;
use crate::utils::{
    be_bytes, be_val, lemma_be_bytes_len, lemma_be_val_bound, lemma_be_val_of_be_bytes, pow256,
    push_bytes, push_u16_be, push_u32_be, push_u64_be, read_buffer, read_u16, read_u32, read_u64,
    read_u8, ByteReader,
};
use vstd::prelude::*;
use vstd::utf8::{decode_utf8, encode_utf8, valid_utf8};

verus! {

/// The mathematical form of an AMF-0 value: strings are character sequences,
/// numbers and dates carry the raw eight-byte pattern of the wire double.
pub enum AmfVal {
    Number(u64),
    Boolean(bool),
    Str(Seq<char>),
    Object(Seq<(Seq<char>, AmfVal)>),
    Null,
    Undefined,
    Reference(u16),
    EcmaArray(Seq<(Seq<char>, AmfVal)>),
    StrictArray(Seq<AmfVal>),
    Date((u64, i16)),
}

/// An AMF-0 value as held in memory.  `Number` and `Date` store the raw
/// big-endian bit pattern of the IEEE-754 double from the wire, so the codec
/// is exact on every input.
pub enum AmfObject {
    Number(u64),
    Boolean(bool),
    String(String),
    Object(Vec<(String, AmfObject)>),
    Null,
    Undefined,
    Reference(u16),
    EcmaArray(Vec<(String, AmfObject)>),
    StrictArray(Vec<AmfObject>),
    Date((u64, i16)),
}

/// The mathematical value of an in-memory AMF value.
pub open spec fn amf_view(v: AmfObject) -> AmfVal
    decreases v,
{
    match v {
        AmfObject::Number(x) => AmfVal::Number(x),
        AmfObject::Boolean(b) => AmfVal::Boolean(b),
        AmfObject::String(s) => AmfVal::Str(s@),
        AmfObject::Object(props) => AmfVal::Object(amf_view_props(props@)),
        AmfObject::Null => AmfVal::Null,
        AmfObject::Undefined => AmfVal::Undefined,
        AmfObject::Reference(r) => AmfVal::Reference(r),
        AmfObject::EcmaArray(props) => AmfVal::EcmaArray(amf_view_props(props@)),
        AmfObject::StrictArray(items) => AmfVal::StrictArray(amf_view_items(items@)),
        AmfObject::Date(d) => AmfVal::Date(d),
    }
}

/// The mathematical value of a property list.
pub open spec fn amf_view_props(s: Seq<(String, AmfObject)>) -> Seq<(Seq<char>, AmfVal)>
    decreases s,
{
    if s.len() == 0 {
        Seq::empty()
    } else {
        amf_view_props(s.drop_last()).push((s.last().0@, amf_view(s.last().1)))
    }
}

/// The mathematical value of a value list.
pub open spec fn amf_view_items(s: Seq<AmfObject>) -> Seq<AmfVal>
    decreases s,
{
    if s.len() == 0 {
        Seq::empty()
    } else {
        amf_view_items(s.drop_last()).push(amf_view(s.last()))
    }
}

impl View for AmfObject {
    type V = AmfVal;

    open spec fn view(&self) -> AmfVal {
        amf_view(*self)
    }
}

pub broadcast proof fn lemma_view_props_len(s: Seq<(String, AmfObject)>)
    ensures
        (#[trigger] amf_view_props(s)).len() == s.len(),
    decreases s,
{
    if s.len() > 0 {
        lemma_view_props_len(s.drop_last());
    }
}

pub broadcast proof fn lemma_view_items_len(s: Seq<AmfObject>)
    ensures
        (#[trigger] amf_view_items(s)).len() == s.len(),
    decreases s,
{
    if s.len() > 0 {
        lemma_view_items_len(s.drop_last());
    }
}

/// The UTF-8 bytes that carry a string on the wire.
pub open spec fn str_bytes(s: Seq<char>) -> Seq<u8> {
    encode_utf8(s)
}

/// The two's-complement wire value of a 16-bit signed integer.
pub open spec fn i16_repr(t: i16) -> nat {
    if t >= 0 {
        t as nat
    } else {
        (t + 0x10000) as nat
    }
}

/// A value the canonical encoder can emit: every string fits its two-byte
/// length field, every property name is non-empty, and every array count fits
/// its four-byte field.
pub open spec fn amf_wf(v: AmfVal) -> bool
    decreases v,
{
    match v {
        AmfVal::Str(s) => str_bytes(s).len() <= 0xFFFF,
        AmfVal::Object(props) => amf_wf_props(props),
        AmfVal::EcmaArray(props) => props.len() < 0x100000000 && amf_wf_props(props),
        AmfVal::StrictArray(items) => items.len() < 0x100000000 && amf_wf_items(items),
        _ => true,
    }
}

pub open spec fn amf_wf_props(props: Seq<(Seq<char>, AmfVal)>) -> bool
    decreases props,
{
    if props.len() == 0 {
        true
    } else {
        amf_wf_props(props.drop_last()) && 1 <= str_bytes(props.last().0).len() <= 0xFFFF
            && amf_wf(props.last().1)
    }
}

pub open spec fn amf_wf_items(items: Seq<AmfVal>) -> bool
    decreases items,
{
    if items.len() == 0 {
        true
    } else {
        amf_wf_items(items.drop_last()) && amf_wf(items.last())
    }
}

/// The bytes of one property: the name length, the name, the value.
pub open spec fn spec_encode_prop(p: (Seq<char>, AmfVal)) -> Seq<u8>
    decreases p,
{
    be_bytes(str_bytes(p.0).len(), 2) + str_bytes(p.0) + spec_encode(p.1)
}

/// The canonical AMF-0 encoding of a value.
pub open spec fn spec_encode(v: AmfVal) -> Seq<u8>
    decreases v,
{
    match v {
        AmfVal::Number(x) => seq![0u8] + be_bytes(x as nat, 8),
        AmfVal::Boolean(b) => seq![
            1u8,
            if b {
                1u8
            } else {
                0u8
            },
        ],
        AmfVal::Str(s) => seq![2u8] + be_bytes(str_bytes(s).len(), 2) + str_bytes(s),
        AmfVal::Object(props) => seq![3u8] + spec_encode_props(props) + seq![0u8, 0u8, 9u8],
        AmfVal::Null => seq![5u8],
        AmfVal::Undefined => seq![6u8],
        AmfVal::Reference(r) => seq![7u8] + be_bytes(r as nat, 2),
        AmfVal::EcmaArray(props) => seq![8u8] + be_bytes(props.len(), 4) + spec_encode_props(props)
            + seq![0u8, 0u8, 9u8],
        AmfVal::StrictArray(items) => seq![10u8] + be_bytes(items.len(), 4) + spec_encode_items(
            items,
        ),
        AmfVal::Date(d) => seq![11u8] + be_bytes(d.0 as nat, 8) + be_bytes(i16_repr(d.1), 2),
    }
}

/// The concatenated encodings of a property list, in order.
pub open spec fn spec_encode_props(props: Seq<(Seq<char>, AmfVal)>) -> Seq<u8>
    decreases props,
{
    if props.len() == 0 {
        Seq::empty()
    } else {
        spec_encode_props(props.drop_last()) + spec_encode_prop(props.last())
    }
}

/// The concatenated encodings of a value list, in order.
pub open spec fn spec_encode_items(items: Seq<AmfVal>) -> Seq<u8>
    decreases items,
{
    if items.len() == 0 {
        Seq::empty()
    } else {
        spec_encode_items(items.drop_last()) + spec_encode(items.last())
    }
}

/// The concatenated encodings of a run of values, as a command payload holds
/// them.
pub open spec fn spec_encode_all(vs: Seq<AmfVal>) -> Seq<u8> {
    spec_encode_items(vs)
}

/// Parses a two-byte length and that many UTF-8 bytes at `pos`.
pub open spec fn amf_parse_str_at(bytes: Seq<u8>, pos: int) -> Option<(Seq<char>, int)> {
    if pos < 0 || pos + 2 > bytes.len() {
        None
    } else {
        let n = be_val(bytes.subrange(pos, pos + 2)) as int;
        if pos + 2 + n <= bytes.len() && valid_utf8(bytes.subrange(pos + 2, pos + 2 + n)) {
            Some((decode_utf8(bytes.subrange(pos + 2, pos + 2 + n)), pos + 2 + n))
        } else {
            None
        }
    }
}

/// Parses one AMF-0 value at `pos`; `None` stands for any decode fault.
/// The position returned is the first byte after the value.
pub open spec fn amf_parse_at(bytes: Seq<u8>, pos: int) -> Option<(AmfVal, int)>
    decreases bytes.len() - pos, 0int, 0int,
{
    if pos < 0 || pos + 1 > bytes.len() {
        None
    } else {
        let marker = bytes[pos];
        if marker == 0 {
            if pos + 9 <= bytes.len() {
                Some(
                    (
                        AmfVal::Number(be_val(bytes.subrange(pos + 1, pos + 9)) as u64),
                        pos + 9,
                    ),
                )
            } else {
                None
            }
        } else if marker == 1 {
            if pos + 2 <= bytes.len() {
                Some((AmfVal::Boolean(bytes[pos + 1] != 0), pos + 2))
            } else {
                None
            }
        } else if marker == 2 {
            match amf_parse_str_at(bytes, pos + 1) {
                Some((str_val, end)) => Some((AmfVal::Str(str_val), end)),
                None => None,
            }
        } else if marker == 3 {
            match amf_parse_props_at(bytes, pos + 1) {
                Some((props, end)) => Some((AmfVal::Object(props), end)),
                None => None,
            }
        } else if marker == 5 {
            Some((AmfVal::Null, pos + 1))
        } else if marker == 6 {
            Some((AmfVal::Undefined, pos + 1))
        } else if marker == 7 {
            if pos + 3 <= bytes.len() {
                Some(
                    (
                        AmfVal::Reference(be_val(bytes.subrange(pos + 1, pos + 3)) as u16),
                        pos + 3,
                    ),
                )
            } else {
                None
            }
        } else if marker == 8 {
            if pos + 5 <= bytes.len() {
                match amf_parse_props_at(bytes, pos + 5) {
                    Some((props, end)) => Some((AmfVal::EcmaArray(props), end)),
                    None => None,
                }
            } else {
                None
            }
        } else if marker == 10 {
            if pos + 5 <= bytes.len() {
                match amf_parse_items_at(bytes, pos + 5, be_val(bytes.subrange(pos + 1, pos + 5))) {
                    Some((items, end)) => Some((AmfVal::StrictArray(items), end)),
                    None => None,
                }
            } else {
                None
            }
        } else if marker == 11 {
            if pos + 11 <= bytes.len() {
                let d = be_val(bytes.subrange(pos + 1, pos + 9)) as u64;
                let raw = be_val(bytes.subrange(pos + 9, pos + 11));
                let tz: i16 = if raw < 0x8000 {
                    raw as i16
                } else {
                    (raw - 0x10000) as i16
                };
                Some((AmfVal::Date((d, tz)), pos + 11))
            } else {
                None
            }
        } else {
            None
        }
    }
}

/// Parses properties at `pos` until the empty name, which must be followed by
/// the object-end marker.  The advisory count of an ECMA array plays no part:
/// the terminator alone bounds the list.
pub open spec fn amf_parse_props_at(bytes: Seq<u8>, pos: int) -> Option<
    (Seq<(Seq<char>, AmfVal)>, int),
>
    decreases bytes.len() - pos, 1int, 0int,
{
    if pos < 0 || pos + 2 > bytes.len() {
        None
    } else {
        let n = be_val(bytes.subrange(pos, pos + 2)) as int;
        if n == 0 {
            if pos + 3 <= bytes.len() && bytes[pos + 2] == 9 {
                Some((Seq::empty(), pos + 3))
            } else {
                None
            }
        } else if pos + 2 + n <= bytes.len() && valid_utf8(bytes.subrange(pos + 2, pos + 2 + n)) {
            let name = decode_utf8(bytes.subrange(pos + 2, pos + 2 + n));
            match amf_parse_at(bytes, pos + 2 + n) {
                Some((v, end)) => {
                    if pos + 2 + n < end <= bytes.len() {
                        match amf_parse_props_at(bytes, end) {
                            Some((rest, end2)) => Some((seq![(name, v)] + rest, end2)),
                            None => None,
                        }
                    } else {
                        None
                    }
                },
                None => None,
            }
        } else {
            None
        }
    }
}

/// Parses exactly `count` values starting at `pos`.
pub open spec fn amf_parse_items_at(bytes: Seq<u8>, pos: int, count: nat) -> Option<
    (Seq<AmfVal>, int),
>
    decreases bytes.len() - pos, 1int, count,
{
    if count == 0 {
        Some((Seq::empty(), pos))
    } else if pos < 0 || pos >= bytes.len() {
        None
    } else {
        match amf_parse_at(bytes, pos) {
            Some((v, end)) => {
                if pos < end <= bytes.len() {
                    match amf_parse_items_at(bytes, end, (count - 1) as nat) {
                        Some((rest, end2)) => Some((seq![v] + rest, end2)),
                        None => None,
                    }
                } else {
                    None
                }
            },
            None => None,
        }
    }
}


/// The error kind the decoder reports for a two-byte length and string body
/// at `pos`: truncation, or bytes that are not UTF-8.
pub open spec fn amf_str_error_at(bytes: Seq<u8>, pos: int) -> Error {
    if pos < 0 || pos + 2 > bytes.len() {
        Error::Io
    } else {
        let n = be_val(bytes.subrange(pos, pos + 2)) as int;
        if pos + 2 + n > bytes.len() {
            Error::Io
        } else {
            Error::MalformedAmf
        }
    }
}

/// The error kind the decoder reports when no value parses at `pos`.
pub open spec fn amf_error_at(bytes: Seq<u8>, pos: int) -> Error
    decreases bytes.len() - pos, 0int, 0int,
{
    if pos < 0 || pos + 1 > bytes.len() {
        Error::Io
    } else {
        let marker = bytes[pos];
        if marker == 0 {
            Error::Io
        } else if marker == 1 {
            Error::Io
        } else if marker == 2 {
            amf_str_error_at(bytes, pos + 1)
        } else if marker == 3 {
            amf_props_error_at(bytes, pos + 1, false)
        } else if marker == 5 {
            Error::Io
        } else if marker == 6 {
            Error::Io
        } else if marker == 7 {
            Error::Io
        } else if marker == 8 {
            if pos + 5 > bytes.len() {
                Error::Io
            } else {
                amf_props_error_at(bytes, pos + 5, true)
            }
        } else if marker == 10 {
            if pos + 5 > bytes.len() {
                Error::Io
            } else {
                amf_items_error_at(bytes, pos + 5, be_val(bytes.subrange(pos + 1, pos + 5)))
            }
        } else if marker == 11 {
            Error::Io
        } else {
            Error::AmfIncorrectTypeMarker
        }
    }
}

/// The error kind the decoder reports when a property list fails at `pos`:
/// a missing or wrong closing marker takes the kind of the enclosing body.
pub open spec fn amf_props_error_at(bytes: Seq<u8>, pos: int, ecma: bool) -> Error
    decreases bytes.len() - pos, 1int, 0int,
{
    if pos < 0 || pos + 2 > bytes.len() {
        Error::Io
    } else {
        let n = be_val(bytes.subrange(pos, pos + 2)) as int;
        if n == 0 {
            if pos + 3 > bytes.len() {
                Error::Io
            } else if ecma {
                Error::AmfIncorrectEndOfEcmaArray
            } else {
                Error::AmfIncorrectTypeMarker
            }
        } else if pos + 2 + n > bytes.len() {
            Error::Io
        } else if !valid_utf8(bytes.subrange(pos + 2, pos + 2 + n)) {
            Error::MalformedAmf
        } else {
            match amf_parse_at(bytes, pos + 2 + n) {
                Some((v, end)) => {
                    if pos + 2 + n < end <= bytes.len() {
                        amf_props_error_at(bytes, end, ecma)
                    } else {
                        Error::Io
                    }
                },
                None => amf_error_at(bytes, pos + 2 + n),
            }
        }
    }
}

/// The error kind the decoder reports when one of `count` values fails.
pub open spec fn amf_items_error_at(bytes: Seq<u8>, pos: int, count: nat) -> Error
    decreases bytes.len() - pos, 1int, count,
{
    if count == 0 {
        Error::Io
    } else if pos < 0 || pos >= bytes.len() {
        Error::Io
    } else {
        match amf_parse_at(bytes, pos) {
            Some((v, end)) => {
                if pos < end <= bytes.len() {
                    amf_items_error_at(bytes, end, (count - 1) as nat)
                } else {
                    Error::Io
                }
            },
            None => amf_error_at(bytes, pos),
        }
    }
}

pub proof fn lemma_parse_props_end_bounds(bytes: Seq<u8>, pos: int)
    ensures
        amf_parse_props_at(bytes, pos) matches Some((props, end)) ==> pos + 3 <= end
            <= bytes.len(),
    decreases bytes.len() - pos, 1int, 0int,
{
    if amf_parse_props_at(bytes, pos) is Some {
        if pos + 2 <= bytes.len() {
            let n = be_val(bytes.subrange(pos, pos + 2)) as int;
            if n != 0 && pos + 2 + n <= bytes.len() && valid_utf8(
                bytes.subrange(pos + 2, pos + 2 + n),
            ) {
                let inner = amf_parse_at(bytes, pos + 2 + n);
                if inner is Some {
                    let end = inner->Some_0.1;
                    if pos + 2 + n < end <= bytes.len() {
                        lemma_parse_props_end_bounds(bytes, end);
                    }
                }
            }
        }
    }
}

pub proof fn lemma_parse_items_end_bounds(bytes: Seq<u8>, pos: int, count: nat)
    ensures
        amf_parse_items_at(bytes, pos, count) matches Some((items, end)) ==> pos <= end
            <= bytes.len() || count == 0,
        count == 0 ==> amf_parse_items_at(bytes, pos, count) == Some(
            (Seq::<AmfVal>::empty(), pos),
        ),
    decreases bytes.len() - pos, 1int, count,
{
    if count > 0 && amf_parse_items_at(bytes, pos, count) is Some {
        let inner = amf_parse_at(bytes, pos);
        if inner is Some {
            let end = inner->Some_0.1;
            if pos < end <= bytes.len() {
                lemma_parse_items_end_bounds(bytes, end, (count - 1) as nat);
            }
        }
    }
}

pub proof fn lemma_view_props_push(s: Seq<(String, AmfObject)>, x: (String, AmfObject))
    ensures
        amf_view_props(s.push(x)) == amf_view_props(s).push((x.0@, amf_view(x.1))),
{
    assert(s.push(x).drop_last() =~= s);
    assert(s.push(x).last() == x);
}

pub proof fn lemma_view_items_push(s: Seq<AmfObject>, x: AmfObject)
    ensures
        amf_view_items(s.push(x)) == amf_view_items(s).push(amf_view(x)),
{
    assert(s.push(x).drop_last() =~= s);
    assert(s.push(x).last() == x);
}

/// Prepends already-parsed properties to the outcome of parsing the rest.
pub open spec fn props_chain(
    acc: Seq<(Seq<char>, AmfVal)>,
    r: Option<(Seq<(Seq<char>, AmfVal)>, int)>,
) -> Option<(Seq<(Seq<char>, AmfVal)>, int)> {
    match r {
        Some((rest, end)) => Some((acc + rest, end)),
        None => None,
    }
}

/// Prepends already-parsed values to the outcome of parsing the rest.
pub open spec fn items_chain(acc: Seq<AmfVal>, r: Option<(Seq<AmfVal>, int)>) -> Option<
    (Seq<AmfVal>, int),
> {
    match r {
        Some((rest, end)) => Some((acc + rest, end)),
        None => None,
    }
}

/// Relies on String::from_utf8: it succeeds exactly on valid UTF-8 input and
/// yields the string made of those bytes.
#[verifier::external_body]
fn bytes_to_string(v: Vec<u8>) -> (r: Option<String>)
    ensures
        r is Some <==> valid_utf8(v@),
        r matches Some(s) ==> s@ == decode_utf8(v@),
{
    match String::from_utf8(v) {
        Ok(s) => Some(s),
        Err(_) => None,
    }
}

/// Consumes one byte and demands that it equal `expected_type_marker`.
fn verify_type_marker(reader: &mut ByteReader, expected_type_marker: u8) -> (res: Result<
    (),
    Error,
>)
    requires
        old(reader).wf(),
    ensures
        final(reader).wf(),
        final(reader).data@ == old(reader).data@,
        match res {
            Ok(()) => {
                &&& old(reader).pos + 1 <= old(reader).data@.len()
                &&& old(reader).data@[old(reader).pos as int] == expected_type_marker
                &&& final(reader).pos == old(reader).pos + 1
            },
            Err(e) => {
                ||| {
                    &&& e == Error::Io
                    &&& old(reader).pos + 1 > old(reader).data@.len()
                    &&& final(reader).pos == old(reader).pos
                }
                ||| {
                    &&& e == Error::AmfIncorrectTypeMarker
                    &&& old(reader).pos + 1 <= old(reader).data@.len()
                    &&& old(reader).data@[old(reader).pos as int] != expected_type_marker
                    &&& final(reader).pos == old(reader).pos + 1
                }
            },
        },
{
    let b = read_u8(reader)?;
    if b == expected_type_marker {
        Ok(())
    } else {
        Err(Error::AmfIncorrectTypeMarker)
    }
}

/// Decodes the eight-byte body of a `Number`, as its raw bit pattern.
pub fn decode_amf_number(reader: &mut ByteReader, verify_marker: bool) -> (res: Result<u64, Error>)
    requires
        old(reader).wf(),
    ensures
        final(reader).wf(),
        final(reader).data@ == old(reader).data@,
        ({
            let p0 = old(reader).pos as int + if verify_marker {
                1int
            } else {
                0int
            };
            match res {
                Ok(x) => {
                    &&& verify_marker ==> old(reader).pos + 1 <= old(reader).data@.len()
                        && old(reader).data@[old(reader).pos as int] == 0
                    &&& p0 + 8 <= old(reader).data@.len()
                    &&& x == be_val(old(reader).data@.subrange(p0, p0 + 8))
                    &&& final(reader).pos == p0 + 8
                },
                Err(e) => {
                    &&& {
                        ||| verify_marker && (old(reader).pos + 1 > old(reader).data@.len() || old(
                            reader,
                        ).data@[old(reader).pos as int] != 0)
                        ||| p0 + 8 > old(reader).data@.len()
                    }
                    &&& e == (if verify_marker && old(reader).pos + 1 > old(reader).data@.len() {
                        Error::Io
                    } else if verify_marker && old(reader).data@[old(reader).pos as int] != 0 {
                        Error::AmfIncorrectTypeMarker
                    } else {
                        Error::Io
                    })
                },
            }
        }),
{
    if verify_marker {
        verify_type_marker(reader, 0)?;
    }
    let ghost p0 = reader.pos as int;
    let x = read_u64(reader)?;
    proof {
        lemma_be_val_bound(old(reader).data@.subrange(p0, p0 + 8));
        assert(pow256(8) == 0x10000000000000000) by { reveal_with_fuel(pow256, 9); };
    }
    Ok(x)
}

/// Decodes the one-byte body of a `Boolean`: any non-zero byte is true.
pub fn decode_amf_boolean(reader: &mut ByteReader, verify_marker: bool) -> (res: Result<
    bool,
    Error,
>)
    requires
        old(reader).wf(),
    ensures
        final(reader).wf(),
        final(reader).data@ == old(reader).data@,
        ({
            let p0 = old(reader).pos as int + if verify_marker {
                1int
            } else {
                0int
            };
            match res {
                Ok(b) => {
                    &&& verify_marker ==> old(reader).pos + 1 <= old(reader).data@.len()
                        && old(reader).data@[old(reader).pos as int] == 1
                    &&& p0 + 1 <= old(reader).data@.len()
                    &&& b == (old(reader).data@[p0] != 0)
                    &&& final(reader).pos == p0 + 1
                },
                Err(e) => {
                    &&& {
                        ||| verify_marker && (old(reader).pos + 1 > old(reader).data@.len() || old(
                            reader,
                        ).data@[old(reader).pos as int] != 1)
                        ||| p0 + 1 > old(reader).data@.len()
                    }
                    &&& e == (if verify_marker && old(reader).pos + 1 > old(reader).data@.len() {
                        Error::Io
                    } else if verify_marker && old(reader).data@[old(reader).pos as int] != 1 {
                        Error::AmfIncorrectTypeMarker
                    } else {
                        Error::Io
                    })
                },
            }
        }),
{
    if verify_marker {
        verify_type_marker(reader, 1)?;
    }
    let b = read_u8(reader)?;
    Ok(b != 0)
}

/// Decodes the empty body of a `Null`.
pub fn decode_amf_null(reader: &mut ByteReader, verify_marker: bool) -> (res: Result<(), Error>)
    requires
        old(reader).wf(),
    ensures
        final(reader).wf(),
        final(reader).data@ == old(reader).data@,
        match res {
            Ok(()) => {
                &&& verify_marker ==> old(reader).pos + 1 <= old(reader).data@.len()
                    && old(reader).data@[old(reader).pos as int] == 5
                &&& final(reader).pos == old(reader).pos + if verify_marker {
                    1int
                } else {
                    0int
                }
            },
            Err(e) => {
                &&& verify_marker && (old(reader).pos + 1 > old(reader).data@.len() || old(
                    reader,
                ).data@[old(reader).pos as int] != 5)
                &&& e == (if old(reader).pos + 1 > old(reader).data@.len() {
                    Error::Io
                } else {
                    Error::AmfIncorrectTypeMarker
                })
            },
        },
{
    if verify_marker {
        verify_type_marker(reader, 5)?;
    }
    Ok(())
}

/// Decodes the two-byte body of a `Reference`.
pub fn decode_amf_reference(reader: &mut ByteReader, verify_marker: bool) -> (res: Result<
    u16,
    Error,
>)
    requires
        old(reader).wf(),
    ensures
        final(reader).wf(),
        final(reader).data@ == old(reader).data@,
        ({
            let p0 = old(reader).pos as int + if verify_marker {
                1int
            } else {
                0int
            };
            match res {
                Ok(x) => {
                    &&& verify_marker ==> old(reader).pos + 1 <= old(reader).data@.len()
                        && old(reader).data@[old(reader).pos as int] == 7
                    &&& p0 + 2 <= old(reader).data@.len()
                    &&& x == be_val(old(reader).data@.subrange(p0, p0 + 2))
                    &&& final(reader).pos == p0 + 2
                },
                Err(e) => {
                    &&& {
                        ||| verify_marker && (old(reader).pos + 1 > old(reader).data@.len() || old(
                            reader,
                        ).data@[old(reader).pos as int] != 7)
                        ||| p0 + 2 > old(reader).data@.len()
                    }
                    &&& e == (if verify_marker && old(reader).pos + 1 > old(reader).data@.len() {
                        Error::Io
                    } else if verify_marker && old(reader).data@[old(reader).pos as int] != 7 {
                        Error::AmfIncorrectTypeMarker
                    } else {
                        Error::Io
                    })
                },
            }
        }),
{
    if verify_marker {
        verify_type_marker(reader, 7)?;
    }
    let x = read_u16(reader)?;
    Ok(x)
}

/// Decodes the ten-byte body of a `Date`: the double's bit pattern and the
/// two's-complement time-zone field.
pub fn decode_amf_date(reader: &mut ByteReader, verify_marker: bool) -> (res: Result<
    (u64, i16),
    Error,
>)
    requires
        old(reader).wf(),
    ensures
        final(reader).wf(),
        final(reader).data@ == old(reader).data@,
        ({
            let p0 = old(reader).pos as int + if verify_marker {
                1int
            } else {
                0int
            };
            match res {
                Ok(d) => {
                    &&& verify_marker ==> old(reader).pos + 1 <= old(reader).data@.len()
                        && old(reader).data@[old(reader).pos as int] == 11
                    &&& p0 + 10 <= old(reader).data@.len()
                    &&& d.0 == be_val(old(reader).data@.subrange(p0, p0 + 8))
                    &&& ({
                        let raw = be_val(old(reader).data@.subrange(p0 + 8, p0 + 10));
                        d.1 == if raw < 0x8000 {
                            raw as int
                        } else {
                            raw - 0x10000
                        }
                    })
                    &&& final(reader).pos == p0 + 10
                },
                Err(e) => {
                    &&& {
                        ||| verify_marker && (old(reader).pos + 1 > old(reader).data@.len() || old(
                            reader,
                        ).data@[old(reader).pos as int] != 11)
                        ||| p0 + 10 > old(reader).data@.len()
                    }
                    &&& e == (if verify_marker && old(reader).pos + 1 > old(reader).data@.len() {
                        Error::Io
                    } else if verify_marker && old(reader).data@[old(reader).pos as int] != 11 {
                        Error::AmfIncorrectTypeMarker
                    } else {
                        Error::Io
                    })
                },
            }
        }),
{
    if verify_marker {
        verify_type_marker(reader, 11)?;
    }
    let millis = read_u64(reader)?;
    let raw = read_u16(reader)?;
    let tz: i16 = if raw < 0x8000 {
        raw as i16
    } else {
        ((raw as i32) - 0x10000) as i16
    };
    Ok((millis, tz))
}

/// Decodes the body of a `String`: a two-byte length and that many UTF-8
/// bytes.  Bytes that are not valid UTF-8 are a `MalformedAmf` fault.
pub fn decode_amf_string(reader: &mut ByteReader, verify_marker: bool) -> (res: Result<
    String,
    Error,
>)
    requires
        old(reader).wf(),
    ensures
        final(reader).wf(),
        final(reader).data@ == old(reader).data@,
        ({
            let p0 = old(reader).pos as int + if verify_marker {
                1int
            } else {
                0int
            };
            match res {
                Ok(str_val) => {
                    &&& verify_marker ==> old(reader).pos + 1 <= old(reader).data@.len()
                        && old(reader).data@[old(reader).pos as int] == 2
                    &&& amf_parse_str_at(old(reader).data@, p0) == Some(
                        (str_val@, final(reader).pos as int),
                    )
                    &&& final(reader).pos > old(reader).pos
                },
                Err(e) => {
                    &&& {
                        ||| verify_marker && (old(reader).pos + 1 > old(reader).data@.len() || old(
                            reader,
                        ).data@[old(reader).pos as int] != 2)
                        ||| amf_parse_str_at(old(reader).data@, p0) is None
                    }
                    &&& e == (if verify_marker && old(reader).pos + 1 > old(reader).data@.len() {
                        Error::Io
                    } else if verify_marker && old(reader).data@[old(reader).pos as int] != 2 {
                        Error::AmfIncorrectTypeMarker
                    } else {
                        amf_str_error_at(old(reader).data@, p0)
                    })
                },
            }
        }),
{
    if verify_marker {
        verify_type_marker(reader, 2)?;
    }
    let ghost p0 = reader.pos as int;
    let size = read_u16(reader)?;
    let buf = read_buffer(reader, size as usize)?;
    match bytes_to_string(buf) {
        Some(str_val) => Ok(str_val),
        None => Err(Error::MalformedAmf),
    }
}

/// Decodes one property of an object or ECMA-array body: `None` when the
/// two-byte name length is zero (the start of the terminator).
fn decode_amf_object_property(reader: &mut ByteReader) -> (res: Result<
    Option<(String, AmfObject)>,
    Error,
>)
    requires
        old(reader).wf(),
    ensures
        final(reader).wf(),
        final(reader).data@ == old(reader).data@,
        ({
            let bytes = old(reader).data@;
            let p = old(reader).pos as int;
            match res {
                Ok(opt) => match opt {
                    Option::None => {
                        &&& p + 2 <= bytes.len()
                        &&& be_val(bytes.subrange(p, p + 2)) == 0
                        &&& final(reader).pos == p + 2
                    },
                    Option::Some(prop) => {
                        let n = be_val(bytes.subrange(p, p + 2)) as int;
                        &&& p + 2 <= bytes.len()
                        &&& n > 0
                        &&& p + 2 + n <= bytes.len()
                        &&& valid_utf8(bytes.subrange(p + 2, p + 2 + n))
                        &&& prop.0@ == decode_utf8(bytes.subrange(p + 2, p + 2 + n))
                        &&& amf_parse_at(bytes, p + 2 + n) == Some(
                            (prop.1@, final(reader).pos as int),
                        )
                        &&& final(reader).pos > p + 2 + n
                    },
                },
                Err(e) => {
                    &&& {
                        ||| p + 2 > bytes.len()
                        ||| ({
                            let n = be_val(bytes.subrange(p, p + 2)) as int;
                            n > 0 && (p + 2 + n > bytes.len() || !valid_utf8(
                                bytes.subrange(p + 2, p + 2 + n),
                            ) || amf_parse_at(bytes, p + 2 + n) is None)
                        })
                    }
                    &&& e == (if p + 2 > bytes.len() {
                        Error::Io
                    } else {
                        let n = be_val(bytes.subrange(p, p + 2)) as int;
                        if p + 2 + n > bytes.len() {
                            Error::Io
                        } else if !valid_utf8(bytes.subrange(p + 2, p + 2 + n)) {
                            Error::MalformedAmf
                        } else {
                            amf_error_at(bytes, p + 2 + n)
                        }
                    })
                },
            }
        }),
    decreases reader.data@.len() - reader.pos, 1int,
{
    let str_size = read_u16(reader)?;
    if str_size == 0 {
        return Ok(None);
    }
    let buf = read_buffer(reader, str_size as usize)?;
    let name = match bytes_to_string(buf) {
        Some(s) => s,
        None => {
            return Err(Error::MalformedAmf);
        },
    };
    let value = decode_amf_message(reader)?;
    Ok(Some((name, value)))
}

/// Decodes an `Object` body: properties until the empty name, which must be
/// closed by the object-end marker.  A property name that repeats stays
/// repeated, in wire order: the decoder keeps the byte form authoritative
/// rather than letting a later pair overwrite an earlier one.
pub fn decode_amf_object(reader: &mut ByteReader, verify_marker: bool) -> (res: Result<
    Vec<(String, AmfObject)>,
    Error,
>)
    requires
        old(reader).wf(),
    ensures
        final(reader).wf(),
        final(reader).data@ == old(reader).data@,
        ({
            let bytes = old(reader).data@;
            let p0 = old(reader).pos as int + if verify_marker {
                1int
            } else {
                0int
            };
            match res {
                Ok(props) => {
                    &&& verify_marker ==> old(reader).pos + 1 <= bytes.len() && bytes[old(
                        reader,
                    ).pos as int] == 3
                    &&& amf_parse_props_at(bytes, p0) == Some(
                        (amf_view_props(props@), final(reader).pos as int),
                    )
                    &&& final(reader).pos > old(reader).pos
                },
                Err(e) => {
                    &&& {
                        ||| verify_marker && (old(reader).pos + 1 > bytes.len() || bytes[old(
                            reader,
                        ).pos as int] != 3)
                        ||| amf_parse_props_at(bytes, p0) is None
                    }
                    &&& e == (if verify_marker && old(reader).pos + 1 > bytes.len() {
                        Error::Io
                    } else if verify_marker && bytes[old(reader).pos as int] != 3 {
                        Error::AmfIncorrectTypeMarker
                    } else {
                        amf_props_error_at(bytes, p0, false)
                    })
                },
            }
        }),
    decreases reader.data@.len() - reader.pos, 2int,
{
    if verify_marker {
        verify_type_marker(reader, 3)?;
    }
    let ghost bytes = reader.data@;
    let ghost p0 = reader.pos as int;
    let mut map: Vec<(String, AmfObject)> = Vec::new();
    proof {
        assert(amf_view_props(map@) =~= Seq::<(Seq<char>, AmfVal)>::empty());
        let head_parse = amf_parse_props_at(bytes, p0);
        if head_parse is Some {
            let rest = head_parse->Some_0.0;
            assert(amf_view_props(map@) + rest =~= rest);
        }
    }
    loop
        invariant
            reader.wf(),
            reader.data@ == bytes,
            bytes == old(reader).data@,
            p0 == old(reader).pos as int + if verify_marker {
                1int
            } else {
                0int
            },
            verify_marker ==> old(reader).pos + 1 <= bytes.len() && bytes[old(
                reader,
            ).pos as int] == 3,
            p0 <= reader.pos as int,
            amf_parse_props_at(bytes, p0) == props_chain(
                amf_view_props(map@),
                amf_parse_props_at(bytes, reader.pos as int),
            ),
            amf_props_error_at(bytes, p0, false) == amf_props_error_at(
                bytes,
                reader.pos as int,
                false,
            ),
        decreases bytes.len() - reader.pos,
    {
        let ghost cur = reader.pos as int;
        match decode_amf_object_property(reader)? {
            Some((key, value)) => {
                proof {
                    let n = be_val(bytes.subrange(cur, cur + 2)) as int;
                    let end = reader.pos as int;
                    assert(amf_parse_props_at(bytes, cur) == props_chain(
                        seq![(key@, value@)],
                        amf_parse_props_at(bytes, end),
                    ));
                    lemma_view_props_push(map@, (key, value));
                    assert(amf_view_props(map@).push((key@, value@)) =~= amf_view_props(map@)
                        + seq![(key@, value@)]);
                    let tail_parse = amf_parse_props_at(bytes, end);
                    if tail_parse is Some {
                        let rest = tail_parse->Some_0.0;
                        assert((amf_view_props(map@) + seq![(key@, value@)]) + rest
                            =~= amf_view_props(map@) + (seq![(key@, value@)] + rest));
                    }
                }
                map.push((key, value));
            },
            None => {
                let ghost cur2 = reader.pos as int;
                verify_type_marker(reader, 9)?;
                proof {
                    assert(amf_parse_props_at(bytes, cur) == Some(
                        (Seq::<(Seq<char>, AmfVal)>::empty(), cur + 3),
                    ));
                    assert(amf_view_props(map@) + Seq::<(Seq<char>, AmfVal)>::empty()
                        =~= amf_view_props(map@));
                }
                return Ok(map);
            },
        }
    }
}

/// Decodes an `EcmaArray` body: the advisory count is read but not trusted;
/// the terminator alone bounds the list.
pub fn decode_amf_ecma_array(reader: &mut ByteReader, verify_marker: bool) -> (res: Result<
    Vec<(String, AmfObject)>,
    Error,
>)
    requires
        old(reader).wf(),
    ensures
        final(reader).wf(),
        final(reader).data@ == old(reader).data@,
        ({
            let bytes = old(reader).data@;
            let p0 = old(reader).pos as int + if verify_marker {
                1int
            } else {
                0int
            };
            match res {
                Ok(props) => {
                    &&& verify_marker ==> old(reader).pos + 1 <= bytes.len() && bytes[old(
                        reader,
                    ).pos as int] == 8
                    &&& p0 + 4 <= bytes.len()
                    &&& amf_parse_props_at(bytes, p0 + 4) == Some(
                        (amf_view_props(props@), final(reader).pos as int),
                    )
                    &&& final(reader).pos > old(reader).pos
                },
                Err(e) => {
                    &&& {
                        ||| verify_marker && (old(reader).pos + 1 > bytes.len() || bytes[old(
                            reader,
                        ).pos as int] != 8)
                        ||| p0 + 4 > bytes.len()
                        ||| amf_parse_props_at(bytes, p0 + 4) is None
                    }
                    &&& e == (if verify_marker && old(reader).pos + 1 > bytes.len() {
                        Error::Io
                    } else if verify_marker && bytes[old(reader).pos as int] != 8 {
                        Error::AmfIncorrectTypeMarker
                    } else if p0 + 4 > bytes.len() {
                        Error::Io
                    } else {
                        amf_props_error_at(bytes, p0 + 4, true)
                    })
                },
            }
        }),
    decreases reader.data@.len() - reader.pos, 2int,
{
    if verify_marker {
        verify_type_marker(reader, 8)?;
    }
    let _advisory_count = read_u32(reader)?;
    let ghost bytes = reader.data@;
    let ghost p0 = reader.pos as int;
    proof {
        assert(p0 == old(reader).pos as int + if verify_marker { 1int } else { 0int } + 4);
    }
    let mut result: Vec<(String, AmfObject)> = Vec::new();
    proof {
        assert(amf_view_props(result@) =~= Seq::<(Seq<char>, AmfVal)>::empty());
        let head_parse = amf_parse_props_at(bytes, p0);
        if head_parse is Some {
            let rest = head_parse->Some_0.0;
            assert(amf_view_props(result@) + rest =~= rest);
        }
    }
    loop
        invariant
            reader.wf(),
            reader.data@ == bytes,
            bytes == old(reader).data@,
            p0 == old(reader).pos as int + 4 + if verify_marker {
                1int
            } else {
                0int
            },
            verify_marker ==> old(reader).pos + 1 <= bytes.len() && bytes[old(
                reader,
            ).pos as int] == 8,
            p0 <= reader.pos as int,
            amf_props_error_at(bytes, p0, true) == amf_props_error_at(
                bytes,
                reader.pos as int,
                true,
            ),
            amf_parse_props_at(bytes, p0) == props_chain(
                amf_view_props(result@),
                amf_parse_props_at(bytes, reader.pos as int),
            ),
        decreases bytes.len() - reader.pos,
    {
        let ghost cur = reader.pos as int;
        match decode_amf_object_property(reader)? {
            Some((key, value)) => {
                proof {
                    let end = reader.pos as int;
                    assert(amf_parse_props_at(bytes, cur) == props_chain(
                        seq![(key@, value@)],
                        amf_parse_props_at(bytes, end),
                    ));
                    lemma_view_props_push(result@, (key, value));
                    assert(amf_view_props(result@).push((key@, value@)) =~= amf_view_props(result@)
                        + seq![(key@, value@)]);
                    let tail_parse = amf_parse_props_at(bytes, end);
                    if tail_parse is Some {
                        let rest = tail_parse->Some_0.0;
                        assert((amf_view_props(result@) + seq![(key@, value@)]) + rest
                            =~= amf_view_props(result@) + (seq![(key@, value@)] + rest));
                    }
                }
                result.push((key, value));
            },
            None => {
                let closed = read_u8(reader)?;
                if closed != 9 {
                    return Err(Error::AmfIncorrectEndOfEcmaArray);
                }
                proof {
                    assert(amf_parse_props_at(bytes, cur) == Some(
                        (Seq::<(Seq<char>, AmfVal)>::empty(), cur + 3),
                    ));
                    assert(amf_view_props(result@) + Seq::<(Seq<char>, AmfVal)>::empty()
                        =~= amf_view_props(result@));
                }
                return Ok(result);
            },
        }
    }
}

/// Decodes a `StrictArray` body: a four-byte count and that many values.
pub fn decode_amf_strict_array(reader: &mut ByteReader, verify_marker: bool) -> (res: Result<
    Vec<AmfObject>,
    Error,
>)
    requires
        old(reader).wf(),
    ensures
        final(reader).wf(),
        final(reader).data@ == old(reader).data@,
        ({
            let bytes = old(reader).data@;
            let p0 = old(reader).pos as int + if verify_marker {
                1int
            } else {
                0int
            };
            match res {
                Ok(items) => {
                    &&& verify_marker ==> old(reader).pos + 1 <= bytes.len() && bytes[old(
                        reader,
                    ).pos as int] == 10
                    &&& p0 + 4 <= bytes.len()
                    &&& amf_parse_items_at(
                        bytes,
                        p0 + 4,
                        be_val(bytes.subrange(p0, p0 + 4)),
                    ) == Some((amf_view_items(items@), final(reader).pos as int))
                    &&& final(reader).pos > old(reader).pos
                },
                Err(e) => {
                    &&& {
                        ||| verify_marker && (old(reader).pos + 1 > bytes.len() || bytes[old(
                            reader,
                        ).pos as int] != 10)
                        ||| p0 + 4 > bytes.len()
                        ||| amf_parse_items_at(bytes, p0 + 4, be_val(bytes.subrange(p0, p0 + 4)))
                            is None
                    }
                    &&& e == (if verify_marker && old(reader).pos + 1 > bytes.len() {
                        Error::Io
                    } else if verify_marker && bytes[old(reader).pos as int] != 10 {
                        Error::AmfIncorrectTypeMarker
                    } else if p0 + 4 > bytes.len() {
                        Error::Io
                    } else {
                        amf_items_error_at(bytes, p0 + 4, be_val(bytes.subrange(p0, p0 + 4)))
                    })
                },
            }
        }),
    decreases reader.data@.len() - reader.pos, 2int,
{
    if verify_marker {
        verify_type_marker(reader, 10)?;
    }
    let ghost bytes = reader.data@;
    let ghost p0 = reader.pos as int;
    let count = read_u32(reader)?;
    let mut items: Vec<AmfObject> = Vec::new();
    let mut i: u32 = 0;
    proof {
        assert(amf_view_items(items@) =~= Seq::<AmfVal>::empty());
        let head_parse = amf_parse_items_at(bytes, p0 + 4, count as nat);
        if head_parse is Some {
            let rest = head_parse->Some_0.0;
            assert(amf_view_items(items@) + rest =~= rest);
        }
    }
    while i < count
        invariant
            reader.wf(),
            reader.data@ == bytes,
            bytes == old(reader).data@,
            p0 == old(reader).pos as int + if verify_marker {
                1int
            } else {
                0int
            },
            i <= count,
            count as nat == be_val(bytes.subrange(p0, p0 + 4)),
            amf_items_error_at(bytes, p0 + 4, count as nat) == amf_items_error_at(
                bytes,
                reader.pos as int,
                (count - i) as nat,
            ),
            verify_marker ==> old(reader).pos + 1 <= bytes.len() && bytes[old(
                reader,
            ).pos as int] == 10,
            p0 + 4 <= reader.pos as int,
            amf_parse_items_at(bytes, p0 + 4, count as nat) == items_chain(
                amf_view_items(items@),
                amf_parse_items_at(bytes, reader.pos as int, (count - i) as nat),
            ),
        decreases count - i,
    {
        let ghost cur = reader.pos as int;
        let value = decode_amf_message(reader)?;
        proof {
            let end = reader.pos as int;
            assert(amf_parse_items_at(bytes, cur, (count - i) as nat) == items_chain(
                seq![value@],
                amf_parse_items_at(bytes, end, (count - i - 1) as nat),
            ));
            lemma_view_items_push(items@, value);
            assert(amf_view_items(items@).push(value@) =~= amf_view_items(items@) + seq![value@]);
            let tail_parse = amf_parse_items_at(bytes, end, (count - i - 1) as nat);
            if tail_parse is Some {
                let rest = tail_parse->Some_0.0;
                assert((amf_view_items(items@) + seq![value@]) + rest =~= amf_view_items(items@) + (
                seq![value@] + rest));
            }
        }
        items.push(value);
        i = i + 1;
    }
    proof {
        assert(amf_parse_items_at(bytes, reader.pos as int, 0) == Some(
            (Seq::<AmfVal>::empty(), reader.pos as int),
        ));
        assert(amf_view_items(items@) + Seq::<AmfVal>::empty() =~= amf_view_items(items@));
    }
    Ok(items)
}

/// Decodes one complete AMF-0 value: the type marker and its body.  The
/// result and the bytes consumed are exactly what the grammar assigns to the
/// input; every fault the grammar rejects is an error here.
pub fn decode_amf_message(reader: &mut ByteReader) -> (res: Result<AmfObject, Error>)
    requires
        old(reader).wf(),
    ensures
        final(reader).wf(),
        final(reader).data@ == old(reader).data@,
        match res {
            Ok(v) => {
                &&& amf_parse_at(old(reader).data@, old(reader).pos as int) == Some(
                    (v@, final(reader).pos as int),
                )
                &&& final(reader).pos > old(reader).pos
            },
            Err(e) => amf_parse_at(old(reader).data@, old(reader).pos as int) is None && e
                == amf_error_at(old(reader).data@, old(reader).pos as int),
        },
    decreases reader.data@.len() - reader.pos, 0int,
{
    let ghost bytes = reader.data@;
    let ghost p = reader.pos as int;
    let type_marker = read_u8(reader)?;
    if type_marker == 0 {
        let x = decode_amf_number(reader, false)?;
        proof {
            lemma_be_val_bound(bytes.subrange(p + 1, p + 9));
            assert(pow256(8) == 0x10000000000000000) by { reveal_with_fuel(pow256, 9); };
        }
        Ok(AmfObject::Number(x))
    } else if type_marker == 1 {
        let b = decode_amf_boolean(reader, false)?;
        Ok(AmfObject::Boolean(b))
    } else if type_marker == 2 {
        let s = decode_amf_string(reader, false)?;
        Ok(AmfObject::String(s))
    } else if type_marker == 3 {
        let props = decode_amf_object(reader, false)?;
        Ok(AmfObject::Object(props))
    } else if type_marker == 5 {
        Ok(AmfObject::Null)
    } else if type_marker == 6 {
        Ok(AmfObject::Undefined)
    } else if type_marker == 7 {
        let r = decode_amf_reference(reader, false)?;
        proof {
            lemma_be_val_bound(bytes.subrange(p + 1, p + 3));
            assert(pow256(2) == 0x10000) by { reveal_with_fuel(pow256, 3); };
        }
        Ok(AmfObject::Reference(r))
    } else if type_marker == 8 {
        let props = decode_amf_ecma_array(reader, false)?;
        Ok(AmfObject::EcmaArray(props))
    } else if type_marker == 10 {
        let items = decode_amf_strict_array(reader, false)?;
        Ok(AmfObject::StrictArray(items))
    } else if type_marker == 11 {
        let d = decode_amf_date(reader, false)?;
        proof {
            lemma_be_val_bound(bytes.subrange(p + 1, p + 9));
            assert(pow256(8) == 0x10000000000000000) by { reveal_with_fuel(pow256, 9); };
            lemma_be_val_bound(bytes.subrange(p + 9, p + 11));
            assert(pow256(2) == 0x10000) by { reveal_with_fuel(pow256, 3); };
        }
        Ok(AmfObject::Date(d))
    } else {
        Err(Error::AmfIncorrectTypeMarker)
    }
}

pub proof fn lemma_wf_props_index(props: Seq<(Seq<char>, AmfVal)>, i: int)
    requires
        amf_wf_props(props),
        0 <= i < props.len(),
    ensures
        1 <= str_bytes(props[i].0).len() <= 0xFFFF,
        amf_wf(props[i].1),
    decreases props,
{
    if i < props.len() - 1 {
        lemma_wf_props_index(props.drop_last(), i);
    }
}

pub proof fn lemma_wf_items_index(items: Seq<AmfVal>, i: int)
    requires
        amf_wf_items(items),
        0 <= i < items.len(),
    ensures
        amf_wf(items[i]),
    decreases items,
{
    if i < items.len() - 1 {
        lemma_wf_items_index(items.drop_last(), i);
    }
}

pub proof fn lemma_view_props_index(s: Seq<(String, AmfObject)>, i: int)
    requires
        0 <= i < s.len(),
    ensures
        amf_view_props(s).len() == s.len(),
        amf_view_props(s)[i] == (s[i].0@, amf_view(s[i].1)),
    decreases s,
{
    lemma_view_props_len(s);
    if i < s.len() - 1 {
        lemma_view_props_index(s.drop_last(), i);
        lemma_view_props_len(s.drop_last());
    }
}

pub proof fn lemma_view_items_index(s: Seq<AmfObject>, i: int)
    requires
        0 <= i < s.len(),
    ensures
        amf_view_items(s).len() == s.len(),
        amf_view_items(s)[i] == amf_view(s[i]),
    decreases s,
{
    lemma_view_items_len(s);
    if i < s.len() - 1 {
        lemma_view_items_index(s.drop_last(), i);
        lemma_view_items_len(s.drop_last());
    }
}

pub proof fn lemma_encode_props_step(props: Seq<(Seq<char>, AmfVal)>, i: int)
    requires
        0 <= i < props.len(),
    ensures
        spec_encode_props(props.take(i + 1)) == spec_encode_props(props.take(i))
            + spec_encode_prop(props[i]),
{
    assert(props.take(i + 1).drop_last() =~= props.take(i));
    assert(props.take(i + 1).last() == props[i]);
}

pub proof fn lemma_encode_items_step(items: Seq<AmfVal>, i: int)
    requires
        0 <= i < items.len(),
    ensures
        spec_encode_items(items.take(i + 1)) == spec_encode_items(items.take(i)) + spec_encode(
            items[i],
        ),
{
    assert(items.take(i + 1).drop_last() =~= items.take(i));
    assert(items.take(i + 1).last() == items[i]);
}

/// Encodes the property list of an object or ECMA array, without terminator.
fn encode_amf_props(props: &Vec<(String, AmfObject)>, message: &mut Vec<u8>)
    requires
        amf_wf_props(amf_view_props(props@)),
    ensures
        final(message)@ == old(message)@ + spec_encode_props(amf_view_props(props@)),
    decreases props,
{
    let ghost target = amf_view_props(props@);
    proof {
        lemma_view_props_len(props@);
        assert(message@ =~= old(message)@ + spec_encode_props(target.take(0)));
    }
    let mut i: usize = 0;
    while i < props.len()
        invariant
            i <= props@.len(),
            target == amf_view_props(props@),
            target.len() == props@.len(),
            amf_wf_props(target),
            message@ == old(message)@ + spec_encode_props(target.take(i as int)),
        decreases props@.len() - i,
    {
        proof {
            lemma_view_props_index(props@, i as int);
            lemma_wf_props_index(target, i as int);
        }
        let name: &String = &props[i].0;
        let nlen = name.as_str().len();
        push_u16_be(message, nlen as u16);
        push_bytes(message, name.as_str().as_bytes());
        proof {
            assert(decreases_to!(props => props@[i as int].1));
        }
        encode_amf_message_impl(&props[i].1, message);
        i = i + 1;
        proof {
            lemma_encode_props_step(target, i as int - 1);
            assert(message@ =~= old(message)@ + spec_encode_props(target.take(i as int)));
        }
    }
    proof {
        assert(target.take(target.len() as int) =~= target);
    }
}

/// Encodes the value list of a strict array.
fn encode_amf_items(items: &Vec<AmfObject>, message: &mut Vec<u8>)
    requires
        amf_wf_items(amf_view_items(items@)),
    ensures
        final(message)@ == old(message)@ + spec_encode_items(amf_view_items(items@)),
    decreases items,
{
    let ghost target = amf_view_items(items@);
    proof {
        lemma_view_items_len(items@);
        assert(message@ =~= old(message)@ + spec_encode_items(target.take(0)));
    }
    let mut i: usize = 0;
    while i < items.len()
        invariant
            i <= items@.len(),
            target == amf_view_items(items@),
            target.len() == items@.len(),
            amf_wf_items(target),
            message@ == old(message)@ + spec_encode_items(target.take(i as int)),
        decreases items@.len() - i,
    {
        proof {
            lemma_view_items_index(items@, i as int);
            lemma_wf_items_index(target, i as int);
            assert(decreases_to!(items => items@[i as int]));
        }
        encode_amf_message_impl(&items[i], message);
        i = i + 1;
        proof {
            lemma_encode_items_step(target, i as int - 1);
            assert(message@ =~= old(message)@ + spec_encode_items(target.take(i as int)));
        }
    }
    proof {
        assert(target.take(target.len() as int) =~= target);
    }
}

/// Appends the canonical encoding of one value.
fn encode_amf_message_impl(src: &AmfObject, message: &mut Vec<u8>)
    requires
        amf_wf(src@),
    ensures
        final(message)@ == old(message)@ + spec_encode(src@),
    decreases src,
{
    match src {
        AmfObject::Number(x) => {
            message.push(0);
            push_u64_be(message, *x);
            proof {
                assert(message@ =~= old(message)@ + spec_encode(src@));
            }
        },
        AmfObject::Boolean(b) => {
            message.push(1);
            message.push(
                if *b {
                    1
                } else {
                    0
                },
            );
            proof {
                assert(message@ =~= old(message)@ + spec_encode(src@));
            }
        },
        AmfObject::String(s) => {
            message.push(2);
            let nlen = s.as_str().len();
            push_u16_be(message, nlen as u16);
            push_bytes(message, s.as_str().as_bytes());
            proof {
                assert(message@ =~= old(message)@ + spec_encode(src@));
            }
        },
        AmfObject::Object(props) => {
            message.push(3);
            proof {
                assert(decreases_to!(src => *props));
            }
            encode_amf_props(props, message);
            message.push(0);
            message.push(0);
            message.push(9);
            proof {
                assert(message@ =~= old(message)@ + spec_encode(src@));
            }
        },
        AmfObject::Null => {
            message.push(5);
            proof {
                assert(message@ =~= old(message)@ + spec_encode(src@));
            }
        },
        AmfObject::Undefined => {
            message.push(6);
            proof {
                assert(message@ =~= old(message)@ + spec_encode(src@));
            }
        },
        AmfObject::Reference(r) => {
            message.push(7);
            push_u16_be(message, *r);
            proof {
                assert(message@ =~= old(message)@ + spec_encode(src@));
            }
        },
        AmfObject::EcmaArray(props) => {
            message.push(8);
            proof {
                lemma_view_props_len(props@);
            }
            push_u32_be(message, props.len() as u32);
            proof {
                assert(decreases_to!(src => *props));
            }
            encode_amf_props(props, message);
            message.push(0);
            message.push(0);
            message.push(9);
            proof {
                assert(message@ =~= old(message)@ + spec_encode(src@));
            }
        },
        AmfObject::StrictArray(items) => {
            message.push(10);
            proof {
                lemma_view_items_len(items@);
            }
            push_u32_be(message, items.len() as u32);
            proof {
                assert(decreases_to!(src => *items));
            }
            encode_amf_items(items, message);
            proof {
                assert(message@ =~= old(message)@ + spec_encode(src@));
            }
        },
        AmfObject::Date(d) => {
            message.push(11);
            push_u64_be(message, d.0);
            let raw: u16 = if d.1 >= 0 {
                d.1 as u16
            } else {
                ((d.1 as i32) + 0x10000) as u16
            };
            push_u16_be(message, raw);
            proof {
                assert(raw as nat == i16_repr(d.1));
                assert(message@ =~= old(message)@ + spec_encode(src@));
            }
        },
    }
}

/// Encodes a run of values back to back, as a command payload carries them.
pub fn encode_amf_messages(src: &[AmfObject]) -> (res: Vec<u8>)
    requires
        amf_wf_items(amf_view_items(src@)),
    ensures
        res@ == spec_encode_all(amf_view_items(src@)),
{
    let ghost target = amf_view_items(src@);
    let mut buffer: Vec<u8> = Vec::new();
    proof {
        lemma_view_items_len(src@);
        assert(buffer@ =~= spec_encode_items(target.take(0)));
    }
    let mut i: usize = 0;
    while i < src.len()
        invariant
            i <= src@.len(),
            target == amf_view_items(src@),
            target.len() == src@.len(),
            amf_wf_items(target),
            buffer@ == spec_encode_items(target.take(i as int)),
        decreases src@.len() - i,
    {
        proof {
            lemma_view_items_index(src@, i as int);
            lemma_wf_items_index(target, i as int);
        }
        encode_amf_message_impl(&src[i], &mut buffer);
        i = i + 1;
        proof {
            lemma_encode_items_step(target, i as int - 1);
            assert(buffer@ =~= spec_encode_items(target.take(i as int)));
        }
    }
    proof {
        assert(target.take(target.len() as int) =~= target);
    }
    buffer
}

/// Every encoding starts with its one-byte marker.
pub proof fn lemma_encode_len_pos(v: AmfVal)
    ensures
        1 <= spec_encode(v).len(),
{
}

/// Splitting a concatenation found inside a larger byte sequence.
pub proof fn lemma_carve(bytes: Seq<u8>, pos: int, a: Seq<u8>, b: Seq<u8>)
    requires
        0 <= pos,
        pos + a.len() + b.len() <= bytes.len(),
        bytes.subrange(pos, pos + a.len() + b.len()) == a + b,
    ensures
        bytes.subrange(pos, pos + a.len() as int) == a,
        bytes.subrange(pos + a.len(), pos + a.len() + b.len()) == b,
{
    let whole = bytes.subrange(pos, pos + a.len() + b.len());
    assert(bytes.subrange(pos, pos + a.len() as int) =~= a) by {
        assert forall|j: int| 0 <= j < a.len() implies bytes.subrange(
            pos,
            pos + a.len() as int,
        )[j] == a[j] by {
            assert(whole[j] == (a + b)[j]);
        }
    };
    assert(bytes.subrange(pos + a.len(), pos + a.len() + b.len()) =~= b) by {
        assert forall|j: int| 0 <= j < b.len() implies bytes.subrange(
            pos + a.len(),
            pos + a.len() + b.len(),
        )[j] == b[j] by {
            assert(whole[a.len() + j] == (a + b)[a.len() + j]);
        }
    };
}

/// The encoding of a property list, read from the front.
proof fn lemma_encode_props_first(props: Seq<(Seq<char>, AmfVal)>)
    requires
        props.len() > 0,
    ensures
        spec_encode_props(props) == spec_encode_prop(props[0]) + spec_encode_props(
            props.drop_first(),
        ),
    decreases props.len(),
{
    if props.len() == 1 {
        assert(props.drop_last() =~= Seq::<(Seq<char>, AmfVal)>::empty());
        assert(props.drop_first() =~= Seq::<(Seq<char>, AmfVal)>::empty());
        assert(props.last() == props[0]);
        assert(Seq::<u8>::empty() + spec_encode_prop(props[0]) =~= spec_encode_prop(props[0]));
        assert(spec_encode_prop(props[0]) + Seq::<u8>::empty() =~= spec_encode_prop(props[0]));
    } else {
        let dl = props.drop_last();
        lemma_encode_props_first(dl);
        assert(dl[0] == props[0]);
        assert(props.drop_first().drop_last() =~= dl.drop_first());
        assert(props.drop_first().last() == props.last());
        assert(spec_encode_props(props.drop_first()) == spec_encode_props(dl.drop_first())
            + spec_encode_prop(props.last()));
        assert((spec_encode_prop(props[0]) + spec_encode_props(dl.drop_first()))
            + spec_encode_prop(props.last()) =~= spec_encode_prop(props[0]) + (spec_encode_props(
            dl.drop_first(),
        ) + spec_encode_prop(props.last())));
    }
}

/// The encoding of a value list, read from the front.
proof fn lemma_encode_items_first(items: Seq<AmfVal>)
    requires
        items.len() > 0,
    ensures
        spec_encode_items(items) == spec_encode(items[0]) + spec_encode_items(items.drop_first()),
    decreases items.len(),
{
    if items.len() == 1 {
        assert(items.drop_last() =~= Seq::<AmfVal>::empty());
        assert(items.drop_first() =~= Seq::<AmfVal>::empty());
        assert(items.last() == items[0]);
        assert(Seq::<u8>::empty() + spec_encode(items[0]) =~= spec_encode(items[0]));
        assert(spec_encode(items[0]) + Seq::<u8>::empty() =~= spec_encode(items[0]));
    } else {
        let dl = items.drop_last();
        lemma_encode_items_first(dl);
        assert(dl[0] == items[0]);
        assert(items.drop_first().drop_last() =~= dl.drop_first());
        assert(items.drop_first().last() == items.last());
        assert(spec_encode_items(items.drop_first()) == spec_encode_items(dl.drop_first())
            + spec_encode(items.last()));
        assert((spec_encode(items[0]) + spec_encode_items(dl.drop_first())) + spec_encode(
            items.last(),
        ) =~= spec_encode(items[0]) + (spec_encode_items(dl.drop_first()) + spec_encode(
            items.last(),
        )));
    }
}

/// Well-formedness of a property list, read from the front.
proof fn lemma_wf_props_first(props: Seq<(Seq<char>, AmfVal)>)
    requires
        amf_wf_props(props),
        props.len() > 0,
    ensures
        1 <= str_bytes(props[0].0).len() <= 0xFFFF,
        amf_wf(props[0].1),
        amf_wf_props(props.drop_first()),
    decreases props.len(),
{
    lemma_wf_props_index(props, 0);
    if props.len() == 1 {
        assert(props.drop_first() =~= Seq::<(Seq<char>, AmfVal)>::empty());
    } else {
        let dl = props.drop_last();
        lemma_wf_props_first(dl);
        assert(props.drop_first().drop_last() =~= dl.drop_first());
        assert(props.drop_first().last() == props.last());
    }
}

/// Well-formedness of a value list, read from the front.
proof fn lemma_wf_items_first(items: Seq<AmfVal>)
    requires
        amf_wf_items(items),
        items.len() > 0,
    ensures
        amf_wf(items[0]),
        amf_wf_items(items.drop_first()),
    decreases items.len(),
{
    lemma_wf_items_index(items, 0);
    if items.len() == 1 {
        assert(items.drop_first() =~= Seq::<AmfVal>::empty());
    } else {
        let dl = items.drop_last();
        lemma_wf_items_first(dl);
        assert(items.drop_first().drop_last() =~= dl.drop_first());
        assert(items.drop_first().last() == items.last());
    }
}

/// Parsing the canonical encoding of a well-formed value found at `pos`
/// yields that value and stops right after it.
pub proof fn lemma_parse_of_encode(bytes: Seq<u8>, pos: int, v: AmfVal)
    requires
        amf_wf(v),
        0 <= pos,
        pos + spec_encode(v).len() <= bytes.len(),
        bytes.subrange(pos, pos + spec_encode(v).len() as int) == spec_encode(v),
    ensures
        amf_parse_at(bytes, pos) == Some((v, pos + spec_encode(v).len() as int)),
    decreases v,
{
    let enc = spec_encode(v);
    let end = pos + enc.len() as int;
    assert(bytes[pos] == enc[0]);
    match v {
        AmfVal::Number(x) => {
            lemma_be_bytes_len(x as nat, 8);
            lemma_carve(bytes, pos, seq![0u8], be_bytes(x as nat, 8));
            assert(pow256(8) == 0x10000000000000000) by { reveal_with_fuel(pow256, 9); };
            lemma_be_val_of_be_bytes(x as nat, 8);
            assert(bytes.subrange(pos + 1, pos + 9) == be_bytes(x as nat, 8));
        },
        AmfVal::Boolean(b) => {
            assert(bytes[pos + 1] == enc[1]);
        },
        AmfVal::Str(s) => {
            let sb = str_bytes(s);
            let n = sb.len();
            lemma_be_bytes_len(n, 2);
            assert(enc =~= seq![2u8] + (be_bytes(n, 2) + sb));
            lemma_carve(bytes, pos, seq![2u8], be_bytes(n, 2) + sb);
            lemma_carve(bytes, pos + 1, be_bytes(n, 2), sb);
            assert(pow256(2) == 0x10000) by { reveal_with_fuel(pow256, 3); };
            lemma_be_val_of_be_bytes(n, 2);
            assert(be_val(bytes.subrange(pos + 1, pos + 3)) == n);
            vstd::utf8::encode_utf8_valid_utf8(s);
            vstd::utf8::encode_utf8_decode_utf8(s);
            assert(bytes.subrange(pos + 3, pos + 3 + n as int) == sb);
        },
        AmfVal::Object(props) => {
            let pb = spec_encode_props(props);
            assert(enc =~= seq![3u8] + (pb + seq![0u8, 0u8, 9u8]));
            lemma_carve(bytes, pos, seq![3u8], pb + seq![0u8, 0u8, 9u8]);
            lemma_carve(bytes, pos + 1, pb, seq![0u8, 0u8, 9u8]);
            lemma_parse_props_of_encode(bytes, pos + 1, props);
        },
        AmfVal::Null => {},
        AmfVal::Undefined => {},
        AmfVal::Reference(r) => {
            lemma_be_bytes_len(r as nat, 2);
            lemma_carve(bytes, pos, seq![7u8], be_bytes(r as nat, 2));
            assert(pow256(2) == 0x10000) by { reveal_with_fuel(pow256, 3); };
            lemma_be_val_of_be_bytes(r as nat, 2);
            assert(bytes.subrange(pos + 1, pos + 3) == be_bytes(r as nat, 2));
        },
        AmfVal::EcmaArray(props) => {
            let pb = spec_encode_props(props);
            lemma_be_bytes_len(props.len(), 4);
            assert(enc =~= seq![8u8] + (be_bytes(props.len(), 4) + (pb + seq![0u8, 0u8, 9u8])));
            lemma_carve(bytes, pos, seq![8u8], be_bytes(props.len(), 4) + (pb + seq![0u8, 0u8, 9u8]));
            lemma_carve(bytes, pos + 1, be_bytes(props.len(), 4), pb + seq![0u8, 0u8, 9u8]);
            lemma_carve(bytes, pos + 5, pb, seq![0u8, 0u8, 9u8]);
            lemma_parse_props_of_encode(bytes, pos + 5, props);
        },
        AmfVal::StrictArray(items) => {
            let ib = spec_encode_items(items);
            lemma_be_bytes_len(items.len(), 4);
            assert(enc =~= seq![10u8] + (be_bytes(items.len(), 4) + ib));
            lemma_carve(bytes, pos, seq![10u8], be_bytes(items.len(), 4) + ib);
            lemma_carve(bytes, pos + 1, be_bytes(items.len(), 4), ib);
            assert(pow256(4) == 0x100000000) by { reveal_with_fuel(pow256, 5); };
            lemma_be_val_of_be_bytes(items.len(), 4);
            assert(be_val(bytes.subrange(pos + 1, pos + 5)) == items.len());
            lemma_parse_items_of_encode(bytes, pos + 5, items);
        },
        AmfVal::Date(d) => {
            lemma_be_bytes_len(d.0 as nat, 8);
            lemma_be_bytes_len(i16_repr(d.1), 2);
            assert(enc =~= seq![11u8] + (be_bytes(d.0 as nat, 8) + be_bytes(i16_repr(d.1), 2)));
            lemma_carve(bytes, pos, seq![11u8], be_bytes(d.0 as nat, 8) + be_bytes(i16_repr(d.1), 2));
            lemma_carve(bytes, pos + 1, be_bytes(d.0 as nat, 8), be_bytes(i16_repr(d.1), 2));
            assert(pow256(8) == 0x10000000000000000) by { reveal_with_fuel(pow256, 9); };
            assert(pow256(2) == 0x10000) by { reveal_with_fuel(pow256, 3); };
            lemma_be_val_of_be_bytes(d.0 as nat, 8);
            lemma_be_val_of_be_bytes(i16_repr(d.1), 2);
            assert(bytes.subrange(pos + 1, pos + 9) == be_bytes(d.0 as nat, 8));
            assert(bytes.subrange(pos + 9, pos + 11) == be_bytes(i16_repr(d.1), 2));
        },
    }
}

/// Parsing the canonical encoding of a well-formed property list followed by
/// its terminator yields the list and stops right after the terminator.
pub proof fn lemma_parse_props_of_encode(bytes: Seq<u8>, pos: int, props: Seq<(Seq<char>, AmfVal)>)
    requires
        amf_wf_props(props),
        0 <= pos,
        pos + spec_encode_props(props).len() + 3 <= bytes.len(),
        bytes.subrange(pos, pos + spec_encode_props(props).len() as int) == spec_encode_props(
            props,
        ),
        bytes.subrange(
            pos + spec_encode_props(props).len(),
            pos + spec_encode_props(props).len() + 3,
        ) == seq![0u8, 0u8, 9u8],
    ensures
        amf_parse_props_at(bytes, pos) == Some(
            (props, pos + spec_encode_props(props).len() + 3),
        ),
    decreases props,
{
    let pb = spec_encode_props(props);
    let term = bytes.subrange(pos + pb.len(), pos + pb.len() + 3);
    if props.len() == 0 {
        assert(pb =~= Seq::<u8>::empty());
        assert(bytes[pos] == term[0]);
        assert(bytes[pos + 1] == term[1]);
        assert(bytes[pos + 2] == term[2]);
        assert(bytes.subrange(pos, pos + 2) =~= seq![0u8, 0u8]);
        assert(be_val(seq![0u8, 0u8]) == 0) by {
            reveal_with_fuel(be_val, 3);
            assert(seq![0u8, 0u8].drop_last() =~= seq![0u8]);
            assert(seq![0u8].drop_last() =~= Seq::<u8>::empty());
        };
    } else {
        let first = props[0];
        let rest = props.drop_first();
        lemma_wf_props_first(props);
        lemma_encode_props_first(props);
        let sb = str_bytes(first.0);
        let n = sb.len();
        let vb = spec_encode(first.1);
        let rb = spec_encode_props(rest);
        lemma_be_bytes_len(n, 2);
        lemma_encode_len_pos(first.1);
        // pb == (be_bytes(n,2) + sb + vb) + rb
        assert(pb == (be_bytes(n, 2) + sb + vb) + rb);
        assert((be_bytes(n, 2) + sb + vb) + rb =~= be_bytes(n, 2) + (sb + (vb + rb)));
        lemma_carve(bytes, pos, be_bytes(n, 2), sb + (vb + rb));
        lemma_carve(bytes, pos + 2, sb, vb + rb);
        lemma_carve(bytes, pos + 2 + n, vb, rb);
        assert(pow256(2) == 0x10000) by { reveal_with_fuel(pow256, 3); };
        lemma_be_val_of_be_bytes(n, 2);
        assert(be_val(bytes.subrange(pos, pos + 2)) == n);
        let cs = first.0;
        vstd::utf8::encode_utf8_valid_utf8(cs);
        vstd::utf8::encode_utf8_decode_utf8(cs);
        assert(bytes.subrange(pos + 2, pos + 2 + n as int) == sb);
        lemma_parse_of_encode(bytes, pos + 2 + n, first.1);
        let mid = pos + 2 + n + vb.len();
        assert(term =~= bytes.subrange(mid + rb.len(), mid + rb.len() + 3));
        lemma_parse_props_of_encode(bytes, mid, rest);
        assert(seq![(cs, first.1)] + rest =~= props);
    }
}

/// Parsing the canonical encodings of `items.len()` well-formed values in a
/// row yields the list and stops right after them.
pub proof fn lemma_parse_items_of_encode(bytes: Seq<u8>, pos: int, items: Seq<AmfVal>)
    requires
        amf_wf_items(items),
        0 <= pos,
        pos + spec_encode_items(items).len() <= bytes.len(),
        bytes.subrange(pos, pos + spec_encode_items(items).len() as int) == spec_encode_items(
            items,
        ),
    ensures
        amf_parse_items_at(bytes, pos, items.len()) == Some(
            (items, pos + spec_encode_items(items).len() as int),
        ),
    decreases items,
{
    if items.len() > 0 {
        let first = items[0];
        let rest = items.drop_first();
        lemma_wf_items_first(items);
        lemma_encode_items_first(items);
        let fb = spec_encode(first);
        let rb = spec_encode_items(rest);
        lemma_encode_len_pos(first);
        lemma_carve(bytes, pos, fb, rb);
        lemma_parse_of_encode(bytes, pos, first);
        lemma_parse_items_of_encode(bytes, pos + fb.len(), rest);
        assert(seq![first] + rest =~= items);
    } else {
        assert(spec_encode_items(items) =~= Seq::<u8>::empty());
    }
}

/// Round trip, first direction: decoding the canonical encoding of any
/// well-formed value yields the value itself, consuming exactly its bytes.
pub proof fn lemma_amf_round_trip(v: AmfVal)
    requires
        amf_wf(v),
    ensures
        amf_parse_at(spec_encode(v), 0) == Some((v, spec_encode(v).len() as int)),
{
    let enc = spec_encode(v);
    assert(enc.subrange(0, enc.len() as int) =~= enc);
    lemma_parse_of_encode(enc, 0, v);
}

/// A parsed property list has at most one property per consumed byte.
proof fn lemma_parse_props_count(bytes: Seq<u8>, pos: int)
    ensures
        amf_parse_props_at(bytes, pos) matches Some((props, end)) ==> props.len() <= end - pos,
    decreases bytes.len() - pos, 1int, 0int,
{
    if amf_parse_props_at(bytes, pos) is Some {
        let n = be_val(bytes.subrange(pos, pos + 2)) as int;
        if n != 0 {
            let inner = amf_parse_at(bytes, pos + 2 + n);
            if inner is Some {
                let end = inner->Some_0.1;
                if pos + 2 + n < end <= bytes.len() {
                    lemma_parse_props_count(bytes, end);
                }
            }
        }
    }
}

/// A parsed value list holds exactly as many values as were asked for.
proof fn lemma_parse_items_len(bytes: Seq<u8>, pos: int, count: nat)
    ensures
        amf_parse_items_at(bytes, pos, count) matches Some((items, end)) ==> items.len() == count,
    decreases bytes.len() - pos, 1int, count,
{
    if count > 0 && amf_parse_items_at(bytes, pos, count) is Some {
        let inner = amf_parse_at(bytes, pos);
        if inner is Some {
            let end = inner->Some_0.1;
            if pos < end <= bytes.len() {
                lemma_parse_items_len(bytes, end, (count - 1) as nat);
            }
        }
    }
}

/// A well-formed property prepended to a well-formed list is well-formed.
pub proof fn lemma_wf_props_cons(x: (Seq<char>, AmfVal), s: Seq<(Seq<char>, AmfVal)>)
    requires
        1 <= str_bytes(x.0).len() <= 0xFFFF,
        amf_wf(x.1),
        amf_wf_props(s),
    ensures
        amf_wf_props(seq![x] + s),
    decreases s.len(),
{
    if s.len() == 0 {
        assert(amf_wf_props(Seq::<(Seq<char>, AmfVal)>::empty()));
        assert((seq![x] + s).drop_last() =~= Seq::<(Seq<char>, AmfVal)>::empty());
        assert((seq![x] + s).last() == x);
        assert(amf_wf_props((seq![x] + s).drop_last()));
    } else {
        lemma_wf_props_cons(x, s.drop_last());
        assert((seq![x] + s).drop_last() =~= seq![x] + s.drop_last());
        assert((seq![x] + s).last() == s.last());
        assert(amf_wf_props((seq![x] + s).drop_last()));
        assert(1 <= str_bytes((seq![x] + s).last().0).len() <= 0xFFFF);
        assert(amf_wf((seq![x] + s).last().1));
    }
}

/// A well-formed value prepended to a well-formed list is well-formed.
pub proof fn lemma_wf_items_cons(x: AmfVal, s: Seq<AmfVal>)
    requires
        amf_wf(x),
        amf_wf_items(s),
    ensures
        amf_wf_items(seq![x] + s),
    decreases s.len(),
{
    if s.len() == 0 {
        assert(amf_wf_items(Seq::<AmfVal>::empty()));
        assert((seq![x] + s).drop_last() =~= Seq::<AmfVal>::empty());
        assert((seq![x] + s).last() == x);
        assert(amf_wf_items((seq![x] + s).drop_last()));
    } else {
        lemma_wf_items_cons(x, s.drop_last());
        assert((seq![x] + s).drop_last() =~= seq![x] + s.drop_last());
        assert((seq![x] + s).last() == s.last());
        assert(amf_wf_items((seq![x] + s).drop_last()));
        assert(amf_wf((seq![x] + s).last()));
    }
}

/// Every value parsed out of a bounded byte sequence is well-formed: its
/// strings fit their length fields and its array counts fit four bytes.
pub proof fn lemma_parse_wf(bytes: Seq<u8>, pos: int)
    requires
        bytes.len() < 0x100000000,
    ensures
        amf_parse_at(bytes, pos) matches Some((v, end)) ==> amf_wf(v),
    decreases bytes.len() - pos, 0int, 0int,
{
    let parsed = amf_parse_at(bytes, pos);
    if parsed is Some {
        let marker = bytes[pos];
        if marker == 2 {
            let n = be_val(bytes.subrange(pos + 1, pos + 3)) as int;
            lemma_be_val_bound(bytes.subrange(pos + 1, pos + 3));
            assert(pow256(2) == 0x10000) by { reveal_with_fuel(pow256, 3); };
            vstd::utf8::decode_utf8_encode_utf8(bytes.subrange(pos + 3, pos + 3 + n));
        } else if marker == 3 {
            lemma_parse_props_wf(bytes, pos + 1);
        } else if marker == 8 {
            lemma_parse_props_wf(bytes, pos + 5);
            lemma_parse_props_count(bytes, pos + 5);
            lemma_parse_props_end_bounds(bytes, pos + 5);
        } else if marker == 10 {
            let count = be_val(bytes.subrange(pos + 1, pos + 5));
            lemma_be_val_bound(bytes.subrange(pos + 1, pos + 5));
            assert(pow256(4) == 0x100000000) by { reveal_with_fuel(pow256, 5); };
            lemma_parse_items_wf(bytes, pos + 5, count);
            lemma_parse_items_len(bytes, pos + 5, count);
        }
    }
}

pub proof fn lemma_parse_props_wf(bytes: Seq<u8>, pos: int)
    requires
        bytes.len() < 0x100000000,
    ensures
        amf_parse_props_at(bytes, pos) matches Some((props, end)) ==> amf_wf_props(props),
    decreases bytes.len() - pos, 1int, 0int,
{
    if amf_parse_props_at(bytes, pos) is Some {
        let n = be_val(bytes.subrange(pos, pos + 2)) as int;
        if n == 0 {
            assert(amf_wf_props(Seq::<(Seq<char>, AmfVal)>::empty()));
        } else {
            lemma_be_val_bound(bytes.subrange(pos, pos + 2));
            assert(pow256(2) == 0x10000) by { reveal_with_fuel(pow256, 3); };
            let name = decode_utf8(bytes.subrange(pos + 2, pos + 2 + n));
            vstd::utf8::decode_utf8_encode_utf8(bytes.subrange(pos + 2, pos + 2 + n));
            let inner = amf_parse_at(bytes, pos + 2 + n);
            let v = inner->Some_0.0;
            let end = inner->Some_0.1;
            lemma_parse_wf(bytes, pos + 2 + n);
            if pos + 2 + n < end <= bytes.len() {
                lemma_parse_props_wf(bytes, end);
                let rest = amf_parse_props_at(bytes, end)->Some_0.0;
                lemma_wf_props_cons((name, v), rest);
            }
        }
    }
}

pub proof fn lemma_parse_items_wf(bytes: Seq<u8>, pos: int, count: nat)
    requires
        bytes.len() < 0x100000000,
    ensures
        amf_parse_items_at(bytes, pos, count) matches Some((items, end)) ==> amf_wf_items(items),
    decreases bytes.len() - pos, 1int, count,
{
    if amf_parse_items_at(bytes, pos, count) is Some {
        if count == 0 {
            assert(amf_wf_items(Seq::<AmfVal>::empty()));
        } else {
            let inner = amf_parse_at(bytes, pos);
            let v = inner->Some_0.0;
            let end = inner->Some_0.1;
            lemma_parse_wf(bytes, pos);
            if pos < end <= bytes.len() {
                lemma_parse_items_wf(bytes, end, (count - 1) as nat);
                let rest = amf_parse_items_at(bytes, end, (count - 1) as nat)->Some_0.0;
                lemma_wf_items_cons(v, rest);
            }
        }
    }
}

/// Round trip, second direction: a value decoded from a bounded byte sequence
/// is well-formed, so encoding it and decoding again yields the same value.
pub proof fn lemma_amf_reencode(bytes: Seq<u8>, pos: int, v: AmfVal, end: int)
    requires
        bytes.len() < 0x100000000,
        amf_parse_at(bytes, pos) == Some((v, end)),
    ensures
        amf_wf(v),
        amf_parse_at(spec_encode(v), 0) == Some((v, spec_encode(v).len() as int)),
{
    lemma_parse_wf(bytes, pos);
    lemma_amf_round_trip(v);
}

} // verus!
