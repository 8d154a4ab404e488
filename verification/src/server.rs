//! The per-connection RTMP session engine: command dispatch, control
//! messages, and the shared media-stream registry with its fan-out plan.
//! Socket work stays outside; these functions turn one received message into
//! registry updates, reply bytes for this connection, and a delivery list
//! for subscriber connections.

use crate::amf::{
    amf_parse_at, amf_view, amf_view_items, amf_view_props, amf_wf, amf_wf_items, amf_wf_props,
    decode_amf_boolean, decode_amf_ecma_array, decode_amf_message, decode_amf_null,
    decode_amf_number, decode_amf_object, decode_amf_string, encode_amf_messages,
    lemma_view_items_index, lemma_view_props_index, lemma_wf_items_cons, lemma_wf_props_cons,
    spec_encode, spec_encode_all, str_bytes, AmfObject, AmfVal,
};
use crate::error::Error;
use crate::stream::{
    spec_chunk_seq, send_header, ChunkMessageHeader, Message, MessageModel, RtmpMessageStreamImpl,
    StreamModel,
};
use crate::utils::{aggregate, be_bytes, be_val, f64_bits_of_int, f64_bits_of_u32, read_u16,
    read_u32, ByteReader};
use vstd::prelude::*;

verus! {

broadcast use vstd::string::group_string_axioms;

/// A subscriber as the registry sees it: the handle app code uses to reach
/// its connection, and whether it asked for a pause.
#[derive(Clone, Copy, Debug, PartialEq, Eq, Structural)]
pub struct RtmpClient {
    pub id: u64,
    pub paused: bool,
}

impl RtmpClient {
    pub fn new(id: u64) -> (r: Self)
        ensures
            r == (RtmpClient { id, paused: false }),
    {
        RtmpClient { id, paused: false }
    }
}

/// One named media stream: its subscribers, the cached metadata message, and
/// whether a publisher holds it.
#[derive(Debug)]
pub struct RtmpMediaStream {
    pub clients: Vec<RtmpClient>,
    pub metadata: Option<Message>,
    pub published: bool,
}

/// The mathematical value of a media stream entry.
pub struct MediaStreamModel {
    pub clients: Seq<RtmpClient>,
    pub metadata: Option<MessageModel>,
    pub published: bool,
}

impl View for RtmpMediaStream {
    type V = MediaStreamModel;

    open spec fn view(&self) -> MediaStreamModel {
        MediaStreamModel {
            clients: self.clients@,
            metadata: match self.metadata {
                Some(m) => Some(m@),
                None => None,
            },
            published: self.published,
        }
    }
}

impl Default for RtmpMediaStream {
    /// A stream nobody publishes or watches yet.
    fn default() -> (r: Self)
        ensures
            r@.clients == Seq::<RtmpClient>::empty(),
            r@.metadata is None,
            !r@.published,
    {
        RtmpMediaStream { clients: Vec::new(), metadata: None, published: false }
    }
}

/// The registry: stream names to media streams, owned by the process and
/// shared by every connection.
pub type Registry = Vec<(String, RtmpMediaStream)>;

/// The mathematical value of the registry.
pub open spec fn registry_view(reg: Registry) -> Seq<(Seq<char>, MediaStreamModel)> {
    Seq::new(reg@.len(), |i: int| (reg@[i].0@, reg@[i].1@))
}

/// Every cached metadata payload fits the three-byte message length field.
pub open spec fn registry_wf(reg: Registry) -> bool {
    forall|i: int|
        0 <= i < reg@.len() ==> match (#[trigger] reg@[i].1@).metadata {
            Some(m) => m.payload.len() <= 0xFFFFFF,
            None => true,
        }
}

/// The first entry carrying `name`, if any.
pub open spec fn registry_find(reg: Registry, name: Seq<char>) -> Option<int> {
    if exists|i: int| 0 <= i < reg@.len() && (#[trigger] reg@[i].0@) == name {
        Some(choose|i: int| 0 <= i < reg@.len() && (#[trigger] reg@[i].0@) == name && forall|j: int|
            0 <= j < i ==> reg@[j].0@ != name)
    } else {
        None
    }
}

/// Looks a stream name up, returning the index of its first entry.
pub fn registry_lookup(reg: &Registry, name: &String) -> (r: Option<usize>)
    ensures
        match r {
            Some(i) => {
                &&& i < reg@.len()
                &&& reg@[i as int].0@ == name@
                &&& forall|j: int| 0 <= j < i ==> reg@[j].0@ != name@
            },
            None => forall|j: int| 0 <= j < reg@.len() ==> reg@[j].0@ != name@,
        },
{
    let mut i: usize = 0;
    while i < reg.len()
        invariant
            i <= reg@.len(),
            forall|j: int| 0 <= j < i ==> reg@[j].0@ != name@,
        decreases reg@.len() - i,
    {
        if reg[i].0 == *name {
            return Some(i);
        }
        i = i + 1;
    }
    None
}

/// A copy of a byte buffer.
pub fn clone_bytes(v: &Vec<u8>) -> (r: Vec<u8>)
    ensures
        r@ == v@,
{
    let mut r: Vec<u8> = Vec::new();
    let mut i: usize = 0;
    proof {
        assert(r@ =~= v@.take(0));
    }
    while i < v.len()
        invariant
            i <= v@.len(),
            r@ == v@.take(i as int),
        decreases v@.len() - i,
    {
        let b = v[i];
        r.push(b);
        i = i + 1;
        proof {
            assert(r@ =~= v@.take(i as int));
        }
    }
    proof {
        assert(v@.take(v@.len() as int) =~= v@);
    }
    r
}

/// One message bound for another connection: the fan-out plan names the
/// receiving client and the message to chunk onto its connection.
pub struct OutboundMessage {
    pub chunk_stream_id: u32,
    pub message_stream_id: u32,
    pub timestamp: u32,
    pub message_type_id: u8,
    pub payload: Vec<u8>,
}

/// The mathematical value of an outbound message.
pub struct OutboundModel {
    pub chunk_stream_id: u32,
    pub message_stream_id: u32,
    pub timestamp: u32,
    pub message_type_id: u8,
    pub payload: Seq<u8>,
}

impl View for OutboundMessage {
    type V = OutboundModel;

    open spec fn view(&self) -> OutboundModel {
        OutboundModel {
            chunk_stream_id: self.chunk_stream_id,
            message_stream_id: self.message_stream_id,
            timestamp: self.timestamp,
            message_type_id: self.message_type_id,
            payload: self.payload@,
        }
    }
}

/// The view of a fan-out list.
pub open spec fn fanout_view(v: Seq<(u64, OutboundMessage)>) -> Seq<(u64, OutboundModel)> {
    Seq::new(v.len(), |i: int| (v[i].0, v[i].1@))
}

/// The deliveries one broadcast owes: one per subscriber that is not paused,
/// in subscriber order.
pub open spec fn broadcast_targets(clients: Seq<RtmpClient>, om: OutboundModel) -> Seq<
    (u64, OutboundModel),
>
    decreases clients.len(),
{
    if clients.len() == 0 {
        Seq::empty()
    } else {
        let front = broadcast_targets(clients.drop_last(), om);
        if clients.last().paused {
            front
        } else {
            front.push((clients.last().id, om))
        }
    }
}

/// ASCII text occupies one wire byte per character.
pub proof fn lemma_ascii_str_bytes(s: Seq<char>)
    requires
        vstd::utf8::is_ascii_chars(s),
    ensures
        str_bytes(s).len() == s.len(),
{
    vstd::utf8::is_ascii_chars_encode_utf8(s);
}

/// An AMF string value.
fn amf_str(s: &str) -> (r: AmfObject)
    requires
        str_bytes(s@).len() <= 0xFFFF,
    ensures
        r@ == AmfVal::Str(s@),
        amf_wf(r@),
{
    AmfObject::String(s.to_owned())
}

/// An AMF number value, from the raw bit pattern of the wire double.
fn amf_num(bits: u64) -> (r: AmfObject)
    ensures
        r@ == AmfVal::Number(bits),
        amf_wf(r@),
{
    AmfObject::Number(bits)
}

/// An AMF object of two properties.
fn amf_object_2(k1: &str, v1: AmfObject, k2: &str, v2: AmfObject) -> (r: AmfObject)
    requires
        1 <= str_bytes(k1@).len() <= 0xFFFF,
        1 <= str_bytes(k2@).len() <= 0xFFFF,
        amf_wf(v1@),
        amf_wf(v2@),
    ensures
        r@ == AmfVal::Object(seq![(k1@, v1@), (k2@, v2@)]),
        amf_wf(r@),
{
    let ghost gv1 = v1@;
    let ghost gv2 = v2@;
    let mut props: Vec<(String, AmfObject)> = Vec::new();
    props.push((k1.to_owned(), v1));
    props.push((k2.to_owned(), v2));
    proof {
        let target = seq![(k1@, gv1), (k2@, gv2)];
        assert(amf_view_props(props@) =~= target) by {
            lemma_view_props_index(props@, 0);
            lemma_view_props_index(props@, 1);
        };
        assert(amf_wf_props(target)) by {
            lemma_wf_props_cons((k2@, gv2), Seq::<(Seq<char>, AmfVal)>::empty());
            assert(seq![(k2@, gv2)] + Seq::<(Seq<char>, AmfVal)>::empty() =~= seq![(k2@, gv2)]);
            lemma_wf_props_cons((k1@, gv1), seq![(k2@, gv2)]);
            assert(seq![(k1@, gv1)] + seq![(k2@, gv2)] =~= target);
        };
    }
    AmfObject::Object(props)
}

/// An AMF object of three properties.
fn amf_object_3(k1: &str, v1: AmfObject, k2: &str, v2: AmfObject, k3: &str, v3: AmfObject) -> (r:
    AmfObject)
    requires
        1 <= str_bytes(k1@).len() <= 0xFFFF,
        1 <= str_bytes(k2@).len() <= 0xFFFF,
        1 <= str_bytes(k3@).len() <= 0xFFFF,
        amf_wf(v1@),
        amf_wf(v2@),
        amf_wf(v3@),
    ensures
        r@ == AmfVal::Object(seq![(k1@, v1@), (k2@, v2@), (k3@, v3@)]),
        amf_wf(r@),
{
    let ghost gv1 = v1@;
    let ghost gv2 = v2@;
    let ghost gv3 = v3@;
    let mut props: Vec<(String, AmfObject)> = Vec::new();
    props.push((k1.to_owned(), v1));
    props.push((k2.to_owned(), v2));
    props.push((k3.to_owned(), v3));
    proof {
        let target = seq![(k1@, gv1), (k2@, gv2), (k3@, gv3)];
        assert(amf_view_props(props@) =~= target) by {
            lemma_view_props_index(props@, 0);
            lemma_view_props_index(props@, 1);
            lemma_view_props_index(props@, 2);
        };
        assert(amf_wf_props(target)) by {
            lemma_wf_props_cons((k3@, gv3), Seq::<(Seq<char>, AmfVal)>::empty());
            assert(seq![(k3@, gv3)] + Seq::<(Seq<char>, AmfVal)>::empty() =~= seq![(k3@, gv3)]);
            lemma_wf_props_cons((k2@, gv2), seq![(k3@, gv3)]);
            assert(seq![(k2@, gv2)] + seq![(k3@, gv3)] =~= seq![(k2@, gv2), (k3@, gv3)]);
            lemma_wf_props_cons((k1@, gv1), seq![(k2@, gv2), (k3@, gv3)]);
            assert(seq![(k1@, gv1)] + seq![(k2@, gv2), (k3@, gv3)] =~= target);
        };
    }
    AmfObject::Object(props)
}

/// Encodes three AMF values back to back.
fn amf_payload_3(a: AmfObject, b: AmfObject, c: AmfObject) -> (r: Vec<u8>)
    requires
        amf_wf(a@),
        amf_wf(b@),
        amf_wf(c@),
    ensures
        r@ == spec_encode_all(seq![a@, b@, c@]),
{
    let ghost ga = a@;
    let ghost gb = b@;
    let ghost gc = c@;
    let mut vals: Vec<AmfObject> = Vec::new();
    vals.push(a);
    vals.push(b);
    vals.push(c);
    proof {
        let target = seq![ga, gb, gc];
        assert(amf_view_items(vals@) =~= target) by {
            lemma_view_items_index(vals@, 0);
            lemma_view_items_index(vals@, 1);
            lemma_view_items_index(vals@, 2);
        };
        assert(amf_wf_items(target)) by {
            lemma_wf_items_cons(gc, Seq::<AmfVal>::empty());
            assert(seq![gc] + Seq::<AmfVal>::empty() =~= seq![gc]);
            lemma_wf_items_cons(gb, seq![gc]);
            assert(seq![gb] + seq![gc] =~= seq![gb, gc]);
            lemma_wf_items_cons(ga, seq![gb, gc]);
            assert(seq![ga] + seq![gb, gc] =~= target);
        };
    }
    encode_amf_messages(vals.as_slice())
}

/// Encodes four AMF values back to back, the shape of every command and
/// status payload.
fn amf_payload_4(a: AmfObject, b: AmfObject, c: AmfObject, d: AmfObject) -> (r: Vec<u8>)
    requires
        amf_wf(a@),
        amf_wf(b@),
        amf_wf(c@),
        amf_wf(d@),
    ensures
        r@ == spec_encode_all(seq![a@, b@, c@, d@]),
{
    let ghost ga = a@;
    let ghost gb = b@;
    let ghost gc = c@;
    let ghost gd = d@;
    let mut vals: Vec<AmfObject> = Vec::new();
    vals.push(a);
    vals.push(b);
    vals.push(c);
    vals.push(d);
    proof {
        let target = seq![ga, gb, gc, gd];
        assert(amf_view_items(vals@) =~= target) by {
            lemma_view_items_index(vals@, 0);
            lemma_view_items_index(vals@, 1);
            lemma_view_items_index(vals@, 2);
            lemma_view_items_index(vals@, 3);
        };
        assert(amf_wf_items(target)) by {
            lemma_wf_items_cons(gd, Seq::<AmfVal>::empty());
            assert(seq![gd] + Seq::<AmfVal>::empty() =~= seq![gd]);
            lemma_wf_items_cons(gc, seq![gd]);
            assert(seq![gc] + seq![gd] =~= seq![gc, gd]);
            lemma_wf_items_cons(gb, seq![gc, gd]);
            assert(seq![gb] + seq![gc, gd] =~= seq![gb, gc, gd]);
            lemma_wf_items_cons(ga, seq![gb, gc, gd]);
            assert(seq![ga] + seq![gb, gc, gd] =~= target);
        };
    }
    encode_amf_messages(vals.as_slice())
}

/// A value whose encoding is one marker and a short fixed or string body.
pub open spec fn flat_val(v: AmfVal) -> bool {
    match v {
        AmfVal::Str(s) => str_bytes(s).len() <= 0xFFFF,
        AmfVal::Number(_) => true,
        AmfVal::Boolean(_) => true,
        AmfVal::Null => true,
        AmfVal::Undefined => true,
        AmfVal::Reference(_) => true,
        AmfVal::Date(_) => true,
        _ => false,
    }
}

pub proof fn lemma_encode_flat_len(v: AmfVal)
    requires
        flat_val(v),
    ensures
        spec_encode(v).len() <= 0x10002,
{
    crate::utils::lemma_be_bytes_len(0, 8);
    match v {
        AmfVal::Number(x) => {
            crate::utils::lemma_be_bytes_len(x as nat, 8);
        },
        AmfVal::Str(s) => {
            crate::utils::lemma_be_bytes_len(str_bytes(s).len(), 2);
        },
        AmfVal::Reference(r) => {
            crate::utils::lemma_be_bytes_len(r as nat, 2);
        },
        AmfVal::Date(d) => {
            crate::utils::lemma_be_bytes_len(d.0 as nat, 8);
            crate::utils::lemma_be_bytes_len(crate::amf::i16_repr(d.1), 2);
        },
        _ => {},
    }
}

/// A property list of short names and flat values.
pub open spec fn flat_props(props: Seq<(Seq<char>, AmfVal)>) -> bool {
    forall|i: int|
        0 <= i < props.len() ==> str_bytes((#[trigger] props[i]).0).len() <= 0xFFFF && flat_val(
            props[i].1,
        )
}

pub proof fn lemma_encode_props_flat_len(props: Seq<(Seq<char>, AmfVal)>)
    requires
        flat_props(props),
    ensures
        crate::amf::spec_encode_props(props).len() <= props.len() * 0x20004,
    decreases props,
{
    if props.len() > 0 {
        assert(flat_props(props.drop_last()));
        lemma_encode_props_flat_len(props.drop_last());
        let last = props.last();
        assert(last == props[props.len() - 1]);
        lemma_encode_flat_len(last.1);
        crate::utils::lemma_be_bytes_len(str_bytes(last.0).len(), 2);
        assert(crate::amf::spec_encode_prop(last).len() <= 0x20003);
        assert(props.drop_last().len() == props.len() - 1);
        assert(spec_encode(last.1).len() >= 0);
        assert(crate::amf::spec_encode_props(props).len() <= (props.len() - 1) * 0x20004
            + 0x20003);
        assert((props.len() - 1) * 0x20004 + 0x20003 <= props.len() * 0x20004) by (nonlinear_arith)
            requires
                props.len() >= 1,
        ;
    }
}

/// A flat value or an object of at most eight flat properties: everything a
/// session response carries.
pub open spec fn small_val(v: AmfVal) -> bool {
    flat_val(v) || (v matches AmfVal::Object(props) && props.len() <= 8 && flat_props(props))
}

pub proof fn lemma_encode_small_len(v: AmfVal)
    requires
        small_val(v),
    ensures
        spec_encode(v).len() <= 0x100024,
{
    if flat_val(v) {
        lemma_encode_flat_len(v);
    } else {
        match v {
            AmfVal::Object(props) => {
                lemma_encode_props_flat_len(props);
                assert(props.len() * 0x20004 <= 8 * 0x20004) by (nonlinear_arith)
                    requires
                        props.len() <= 8,
                ;
            },
            _ => {},
        }
    }
}

pub proof fn lemma_payload_small_len(vs: Seq<AmfVal>)
    requires
        forall|i: int| 0 <= i < vs.len() ==> small_val(#[trigger] vs[i]),
        vs.len() <= 5,
    ensures
        spec_encode_all(vs).len() <= vs.len() * 0x100024,
        spec_encode_all(vs).len() <= 0xFFFFFF,
    decreases vs,
{
    if vs.len() > 0 {
        assert(forall|i: int|
            0 <= i < vs.drop_last().len() ==> small_val(#[trigger] vs.drop_last()[i]));
        lemma_payload_small_len(vs.drop_last());
        assert(vs.last() == vs[vs.len() - 1]);
        lemma_encode_small_len(vs.last());
        assert(vs.drop_last().len() == vs.len() - 1);
        assert((vs.len() - 1) * 0x100024 + 0x100024 == vs.len() * 0x100024) by (nonlinear_arith);
        assert(vs.len() * 0x100024 <= 5 * 0x100024) by (nonlinear_arith)
            requires
                vs.len() <= 5,
        ;
    }
}

/// An AMF object of four properties.
fn amf_object_4(
    k1: &str,
    v1: AmfObject,
    k2: &str,
    v2: AmfObject,
    k3: &str,
    v3: AmfObject,
    k4: &str,
    v4: AmfObject,
) -> (r: AmfObject)
    requires
        1 <= str_bytes(k1@).len() <= 0xFFFF,
        1 <= str_bytes(k2@).len() <= 0xFFFF,
        1 <= str_bytes(k3@).len() <= 0xFFFF,
        1 <= str_bytes(k4@).len() <= 0xFFFF,
        amf_wf(v1@),
        amf_wf(v2@),
        amf_wf(v3@),
        amf_wf(v4@),
    ensures
        r@ == AmfVal::Object(seq![(k1@, v1@), (k2@, v2@), (k3@, v3@), (k4@, v4@)]),
        amf_wf(r@),
{
    let ghost gv1 = v1@;
    let ghost gv2 = v2@;
    let ghost gv3 = v3@;
    let ghost gv4 = v4@;
    let mut props: Vec<(String, AmfObject)> = Vec::new();
    props.push((k1.to_owned(), v1));
    props.push((k2.to_owned(), v2));
    props.push((k3.to_owned(), v3));
    props.push((k4.to_owned(), v4));
    proof {
        let target = seq![(k1@, gv1), (k2@, gv2), (k3@, gv3), (k4@, gv4)];
        assert(amf_view_props(props@) =~= target) by {
            lemma_view_props_index(props@, 0);
            lemma_view_props_index(props@, 1);
            lemma_view_props_index(props@, 2);
            lemma_view_props_index(props@, 3);
        };
        assert(amf_wf_props(target)) by {
            lemma_wf_props_cons((k4@, gv4), Seq::<(Seq<char>, AmfVal)>::empty());
            assert(seq![(k4@, gv4)] + Seq::<(Seq<char>, AmfVal)>::empty() =~= seq![(k4@, gv4)]);
            lemma_wf_props_cons((k3@, gv3), seq![(k4@, gv4)]);
            assert(seq![(k3@, gv3)] + seq![(k4@, gv4)] =~= seq![(k3@, gv3), (k4@, gv4)]);
            lemma_wf_props_cons((k2@, gv2), seq![(k3@, gv3), (k4@, gv4)]);
            assert(seq![(k2@, gv2)] + seq![(k3@, gv3), (k4@, gv4)] =~= seq![
                (k2@, gv2),
                (k3@, gv3),
                (k4@, gv4),
            ]);
            lemma_wf_props_cons((k1@, gv1), seq![(k2@, gv2), (k3@, gv3), (k4@, gv4)]);
            assert(seq![(k1@, gv1)] + seq![(k2@, gv2), (k3@, gv3), (k4@, gv4)] =~= target);
        };
    }
    AmfObject::Object(props)
}

/// The wire lengths of the fixed strings the session engine sends.
pub proof fn lemma_session_literal_lens()
    ensures
        str_bytes("onStatus"@).len() == 8,
        str_bytes("level"@).len() == 5,
        str_bytes("status"@).len() == 6,
        str_bytes("error"@).len() == 5,
        str_bytes("code"@).len() == 4,
        str_bytes("_result"@).len() == 7,
        str_bytes("fmsVer"@).len() == 6,
        str_bytes("FMS/4,5,0,297"@).len() == 13,
        str_bytes("capabilities"@).len() == 12,
        str_bytes("mode"@).len() == 4,
        str_bytes("NetConnection.Connect.Success"@).len() == 29,
        str_bytes("description"@).len() == 11,
        str_bytes("Connection succeeded."@).len() == 21,
        str_bytes("objectEncoding"@).len() == 14,
        str_bytes("NetStream.Play.Reset"@).len() == 20,
        str_bytes("NetStream.Play.Start"@).len() == 20,
        str_bytes("NetStream.Pause.Notify"@).len() == 22,
        str_bytes("NetStream.Publish.Start"@).len() == 23,
        str_bytes("NetStream.Publish.Denied"@).len() == 24,
        str_bytes("NetStream.Seek.Notify"@).len() == 21,
        str_bytes("|RtmpSampleAccess"@).len() == 17,
{
    reveal_strlit("onStatus");
    assert(vstd::utf8::is_ascii_chars("onStatus"@));
    lemma_ascii_str_bytes("onStatus"@);
    reveal_strlit("level");
    assert(vstd::utf8::is_ascii_chars("level"@));
    lemma_ascii_str_bytes("level"@);
    reveal_strlit("status");
    assert(vstd::utf8::is_ascii_chars("status"@));
    lemma_ascii_str_bytes("status"@);
    reveal_strlit("error");
    assert(vstd::utf8::is_ascii_chars("error"@));
    lemma_ascii_str_bytes("error"@);
    reveal_strlit("code");
    assert(vstd::utf8::is_ascii_chars("code"@));
    lemma_ascii_str_bytes("code"@);
    reveal_strlit("_result");
    assert(vstd::utf8::is_ascii_chars("_result"@));
    lemma_ascii_str_bytes("_result"@);
    reveal_strlit("fmsVer");
    assert(vstd::utf8::is_ascii_chars("fmsVer"@));
    lemma_ascii_str_bytes("fmsVer"@);
    reveal_strlit("FMS/4,5,0,297");
    assert(vstd::utf8::is_ascii_chars("FMS/4,5,0,297"@));
    lemma_ascii_str_bytes("FMS/4,5,0,297"@);
    reveal_strlit("capabilities");
    assert(vstd::utf8::is_ascii_chars("capabilities"@));
    lemma_ascii_str_bytes("capabilities"@);
    reveal_strlit("mode");
    assert(vstd::utf8::is_ascii_chars("mode"@));
    lemma_ascii_str_bytes("mode"@);
    reveal_strlit("NetConnection.Connect.Success");
    assert(vstd::utf8::is_ascii_chars("NetConnection.Connect.Success"@));
    lemma_ascii_str_bytes("NetConnection.Connect.Success"@);
    reveal_strlit("description");
    assert(vstd::utf8::is_ascii_chars("description"@));
    lemma_ascii_str_bytes("description"@);
    reveal_strlit("Connection succeeded.");
    assert(vstd::utf8::is_ascii_chars("Connection succeeded."@));
    lemma_ascii_str_bytes("Connection succeeded."@);
    reveal_strlit("objectEncoding");
    assert(vstd::utf8::is_ascii_chars("objectEncoding"@));
    lemma_ascii_str_bytes("objectEncoding"@);
    reveal_strlit("NetStream.Play.Reset");
    assert(vstd::utf8::is_ascii_chars("NetStream.Play.Reset"@));
    lemma_ascii_str_bytes("NetStream.Play.Reset"@);
    reveal_strlit("NetStream.Play.Start");
    assert(vstd::utf8::is_ascii_chars("NetStream.Play.Start"@));
    lemma_ascii_str_bytes("NetStream.Play.Start"@);
    reveal_strlit("NetStream.Pause.Notify");
    assert(vstd::utf8::is_ascii_chars("NetStream.Pause.Notify"@));
    lemma_ascii_str_bytes("NetStream.Pause.Notify"@);
    reveal_strlit("NetStream.Publish.Start");
    assert(vstd::utf8::is_ascii_chars("NetStream.Publish.Start"@));
    lemma_ascii_str_bytes("NetStream.Publish.Start"@);
    reveal_strlit("NetStream.Publish.Denied");
    assert(vstd::utf8::is_ascii_chars("NetStream.Publish.Denied"@));
    lemma_ascii_str_bytes("NetStream.Publish.Denied"@);
    reveal_strlit("NetStream.Seek.Notify");
    assert(vstd::utf8::is_ascii_chars("NetStream.Seek.Notify"@));
    lemma_ascii_str_bytes("NetStream.Seek.Notify"@);
    reveal_strlit("|RtmpSampleAccess");
    assert(vstd::utf8::is_ascii_chars("|RtmpSampleAccess"@));
    lemma_ascii_str_bytes("|RtmpSampleAccess"@);
}

/// The values of an `onStatus` response carrying `code`.
pub open spec fn on_status_vals(code: Seq<char>) -> Seq<AmfVal> {
    seq![
        AmfVal::Str("onStatus"@),
        AmfVal::Number(0),
        AmfVal::Null,
        AmfVal::Object(
            seq![("level"@, AmfVal::Str("status"@)), ("code"@, AmfVal::Str(code))],
        ),
    ]
}

/// The payload of an `onStatus` response.
pub open spec fn on_status_payload(code: Seq<char>) -> Seq<u8> {
    spec_encode_all(on_status_vals(code))
}

/// Builds the `onStatus` command payload for a status code.
pub fn on_status(code: &str) -> (r: Vec<u8>)
    requires
        str_bytes(code@).len() <= 0xFFFF,
    ensures
        r@ == on_status_payload(code@),
        r@.len() <= 0xFFFFFF,
{
    proof {
        lemma_session_literal_lens();
    }
    let info = amf_object_2("level", amf_str("status"), "code", amf_str(code));
    let r = amf_payload_4(amf_str("onStatus"), amf_num(0), AmfObject::Null, info);
    proof {
        let vals = on_status_vals(code@);
        assert forall|i: int| 0 <= i < vals.len() implies small_val(#[trigger] vals[i]) by {
            if i == 3 {
                let props = seq![("level"@, AmfVal::Str("status"@)), ("code"@, AmfVal::Str(code@))];
                assert(flat_props(props)) by {
                    assert(props[0] == ("level"@, AmfVal::Str("status"@)));
                    assert(props[1] == ("code"@, AmfVal::Str(code@)));
                };
            }
        };
        lemma_payload_small_len(vals);
    }
    r
}

/// The values of an error-level `onStatus` response carrying `code`.
pub open spec fn on_status_error_vals(code: Seq<char>) -> Seq<AmfVal> {
    seq![
        AmfVal::Str("onStatus"@),
        AmfVal::Number(0),
        AmfVal::Null,
        AmfVal::Object(
            seq![("level"@, AmfVal::Str("error"@)), ("code"@, AmfVal::Str(code))],
        ),
    ]
}

/// The payload of an error-level `onStatus` response.
pub open spec fn on_status_error_payload(code: Seq<char>) -> Seq<u8> {
    spec_encode_all(on_status_error_vals(code))
}

/// Builds the error-level `onStatus` command payload for a status code.
pub fn on_status_error(code: &str) -> (r: Vec<u8>)
    requires
        str_bytes(code@).len() <= 0xFFFF,
    ensures
        r@ == on_status_error_payload(code@),
        r@.len() <= 0xFFFFFF,
{
    proof {
        lemma_session_literal_lens();
    }
    let info = amf_object_2("level", amf_str("error"), "code", amf_str(code));
    let r = amf_payload_4(amf_str("onStatus"), amf_num(0), AmfObject::Null, info);
    proof {
        let vals = on_status_error_vals(code@);
        assert forall|i: int| 0 <= i < vals.len() implies small_val(#[trigger] vals[i]) by {
            if i == 3 {
                let props = seq![("level"@, AmfVal::Str("error"@)), ("code"@, AmfVal::Str(code@))];
                assert(flat_props(props)) by {
                    assert(props[0] == ("level"@, AmfVal::Str("error"@)));
                    assert(props[1] == ("code"@, AmfVal::Str(code@)));
                };
            }
        };
        lemma_payload_small_len(vals);
    }
    r
}

/// The values of the `_result` reply to `connect`.
pub open spec fn connect_result_vals() -> Seq<AmfVal> {
    seq![
        AmfVal::Str("_result"@),
        AmfVal::Number(f64_bits_of_int(1) as u64),
        AmfVal::Object(
            seq![
                ("fmsVer"@, AmfVal::Str("FMS/4,5,0,297"@)),
                ("capabilities"@, AmfVal::Number(f64_bits_of_int(255) as u64)),
                ("mode"@, AmfVal::Number(f64_bits_of_int(1) as u64)),
            ],
        ),
        AmfVal::Object(
            seq![
                ("level"@, AmfVal::Str("status"@)),
                ("code"@, AmfVal::Str("NetConnection.Connect.Success"@)),
                ("description"@, AmfVal::Str("Connection succeeded."@)),
                ("objectEncoding"@, AmfVal::Number(0)),
            ],
        ),
    ]
}

/// Everything `connect` sends, in order: an acknowledgement, the window
/// acknowledgement size, the peer bandwidth with the dynamic limit type, a
/// stream-begin user control event, and the `_result` command.
pub open spec fn connect_response_bytes(c: nat) -> Seq<u8> {
    spec_chunk_seq(2, send_header(0, 0, 3, 4), be_bytes(7122, 4), c, 0)
        + spec_chunk_seq(2, send_header(0, 0, 5, 4), be_bytes(1048576, 4), c, 0)
        + spec_chunk_seq(2, send_header(0, 0, 6, 5), be_bytes(1048576, 4) + seq![2u8], c, 0)
        + spec_chunk_seq(2, send_header(0, 0, 4, 6), seq![0u8, 0u8, 0u8, 0u8, 0u8, 0u8], c, 0)
        + spec_chunk_seq(
        3,
        send_header(0, 0, 20, spec_encode_all(connect_result_vals()).len()),
        spec_encode_all(connect_result_vals()),
        c,
        0,
    )
}

/// The `connect` arguments parse as a transaction id of one and a command
/// object.
pub open spec fn connect_args_ok(bytes: Seq<u8>, pos: int) -> bool {
    let r1 = amf_parse_at(bytes, pos);
    &&& r1 matches Some((v1, p1))
    &&& r1->Some_0.0 == AmfVal::Number(f64_bits_of_int(1) as u64)
    &&& amf_parse_at(bytes, r1->Some_0.1) matches Some((v2, p2)) && v2 is Object
}

/// The per-connection session: its chunk codec state and the stream name its
/// role binds it to.
pub struct RtmpServer {
    pub message_stream: RtmpMessageStreamImpl,
    pub stream_name: String,
    pub conn_id: u64,
}

impl RtmpServer {
    /// The chunk state is sound and the write chunk size can make progress.
    pub open spec fn wf(self) -> bool {
        &&& self.message_stream.wf()
        &&& self.message_stream.max_chunk_size_write >= 1
    }

    pub fn new(conn_id: u64) -> (r: Self)
        ensures
            r.wf(),
            r.conn_id == conn_id,
            r.stream_name@ == Seq::<char>::empty(),
            r.message_stream@.channels == Map::<u32, MessageModel>::empty(),
            r.message_stream@.prev == Map::<u32, (ChunkMessageHeader, u8)>::empty(),
            r.message_stream.max_chunk_size_read == 128,
            r.message_stream.max_chunk_size_write == 128,
    {
        RtmpServer {
            message_stream: RtmpMessageStreamImpl::new(),
            stream_name: String::new(),
            conn_id,
        }
    }


    /// Builds the `_result` payload that answers `connect`.
    fn connect_result_payload(&self) -> (r: Vec<u8>)
        ensures
            r@ == spec_encode_all(connect_result_vals()),
            r@.len() <= 0xFFFFFF,
    {
        proof {
            lemma_session_literal_lens();
        }
        let props_obj = amf_object_3(
            "fmsVer",
            amf_str("FMS/4,5,0,297"),
            "capabilities",
            amf_num(f64_bits_of_u32(255)),
            "mode",
            amf_num(f64_bits_of_u32(1)),
        );
        let info_obj = amf_object_4(
            "level",
            amf_str("status"),
            "code",
            amf_str("NetConnection.Connect.Success"),
            "description",
            amf_str("Connection succeeded."),
            "objectEncoding",
            amf_num(0),
        );
        let result_payload = amf_payload_4(
            amf_str("_result"),
            amf_num(f64_bits_of_u32(1)),
            props_obj,
            info_obj,
        );
        proof {
            let vals = connect_result_vals();
            assert(result_payload@ == spec_encode_all(vals));
            assert forall|i: int| 0 <= i < vals.len() implies small_val(#[trigger] vals[i]) by {
                if i == 2 {
                    let props = seq![
                        ("fmsVer"@, AmfVal::Str("FMS/4,5,0,297"@)),
                        ("capabilities"@, AmfVal::Number(f64_bits_of_int(255) as u64)),
                        ("mode"@, AmfVal::Number(f64_bits_of_int(1) as u64)),
                    ];
                    assert(flat_props(props)) by {
                        assert(props[0] == ("fmsVer"@, AmfVal::Str("FMS/4,5,0,297"@)));
                        assert(props[1] == ("capabilities"@, AmfVal::Number(
                            f64_bits_of_int(255) as u64,
                        )));
                        assert(props[2] == ("mode"@, AmfVal::Number(f64_bits_of_int(1) as u64)));
                    };
                }
                if i == 3 {
                    let props = seq![
                        ("level"@, AmfVal::Str("status"@)),
                        ("code"@, AmfVal::Str("NetConnection.Connect.Success"@)),
                        ("description"@, AmfVal::Str("Connection succeeded."@)),
                        ("objectEncoding"@, AmfVal::Number(0)),
                    ];
                    assert(flat_props(props)) by {
                        assert(props[0] == ("level"@, AmfVal::Str("status"@)));
                        assert(props[1] == ("code"@, AmfVal::Str(
                            "NetConnection.Connect.Success"@,
                        )));
                        assert(props[2] == ("description"@, AmfVal::Str("Connection succeeded."@)));
                        assert(props[3] == ("objectEncoding"@, AmfVal::Number(0)));
                    };
                }
            };
            lemma_payload_small_len(vals);
        }
        result_payload
    }

    /// Replies to `connect`: checks the arguments, then writes the setup
    /// sequence and the `_result` command onto this connection.
    #[verifier::rlimit(60)]
    pub fn handle_connect(&self, reader: &mut ByteReader, out: &mut Vec<u8>) -> (res: Result<
        (),
        Error,
    >)
        requires
            old(reader).wf(),
            self.wf(),
        ensures
            final(reader).wf(),
            final(reader).data@ == old(reader).data@,
            match res {
                Ok(()) => connect_args_ok(old(reader).data@, old(reader).pos as int)
                    && final(out)@ == old(out)@ + connect_response_bytes(
                    self.message_stream.max_chunk_size_write as nat,
                ),
                Err(e) => {
                    &&& !connect_args_ok(old(reader).data@, old(reader).pos as int)
                    &&& final(out)@ == old(out)@
                    &&& ({
                        let r1 = amf_parse_at(old(reader).data@, old(reader).pos as int);
                        (r1 matches Some((v1, q1)) && v1 is Number && v1 != AmfVal::Number(
                            f64_bits_of_int(1) as u64,
                        )) ==> e == Error::UnexpectedAmfObjectType
                    })
                },
            },
    {
        let ghost bytes = reader.data@;
        let ghost p = reader.pos as int;
        let transaction_id = match decode_amf_number(reader, true) {
            Ok(x) => x,
            Err(e) => {
                return Err(e);
            },
        };
        proof {
            crate::utils::lemma_be_val_bound(bytes.subrange(p + 1, p + 9));
            assert(crate::utils::pow256(8) == 0x10000000000000000) by {
                reveal_with_fuel(crate::utils::pow256, 9);
            };
        }
        if transaction_id != f64_bits_of_u32(1) {
            return Err(Error::UnexpectedAmfObjectType);
        }
        let ghost p1 = reader.pos as int;
        let _cmd_object = match decode_amf_object(reader, true) {
            Ok(o) => o,
            Err(e) => {
                return Err(e);
            },
        };
        let ghost c = self.message_stream.max_chunk_size_write as nat;
        let ghost start = out@;
        let mut ackbuf: Vec<u8> = Vec::new();
        crate::utils::push_u32_be(&mut ackbuf, 7122);
        proof {
            crate::utils::lemma_be_bytes_len(7122, 4);
            assert(ackbuf@ =~= be_bytes(7122, 4));
        }
        self.message_stream.send_message(
            out,
            crate::constant::RTMP_PROTOCOL_CONTROL_CHUNK_STREAM_ID,
            crate::constant::RTMP_PROTOCOL_CONTROL_MESSAGE_STREAM_ID,
            0,
            crate::constant::RTMP_ACKNOWLEDGEMENT,
            ackbuf.as_slice(),
        );
        let ghost out1 = out@;
        let mut winbuf: Vec<u8> = Vec::new();
        crate::utils::push_u32_be(&mut winbuf, 1048576);
        proof {
            crate::utils::lemma_be_bytes_len(1048576, 4);
            assert(winbuf@ =~= be_bytes(1048576, 4));
        }
        self.message_stream.send_message(
            out,
            crate::constant::RTMP_PROTOCOL_CONTROL_CHUNK_STREAM_ID,
            crate::constant::RTMP_PROTOCOL_CONTROL_MESSAGE_STREAM_ID,
            0,
            crate::constant::RTMP_WINDOW_ACK_SIZE,
            winbuf.as_slice(),
        );
        let ghost out2 = out@;
        let mut bwbuf: Vec<u8> = Vec::new();
        crate::utils::push_u32_be(&mut bwbuf, 1048576);
        bwbuf.push(2);
        proof {
            crate::utils::lemma_be_bytes_len(1048576, 4);
            assert(bwbuf@ =~= be_bytes(1048576, 4) + seq![2u8]);
        }
        self.message_stream.send_message(
            out,
            crate::constant::RTMP_PROTOCOL_CONTROL_CHUNK_STREAM_ID,
            crate::constant::RTMP_PROTOCOL_CONTROL_MESSAGE_STREAM_ID,
            0,
            crate::constant::RTMP_SET_PEER_BANDWIDTH,
            bwbuf.as_slice(),
        );
        let ghost out3 = out@;
        let mut sbbuf: Vec<u8> = Vec::new();
        let mut k: usize = 0;
        while k < 6
            invariant
                k <= 6,
                sbbuf@ =~= Seq::<u8>::new(k as nat, |i: int| 0u8),
            decreases 6 - k,
        {
            sbbuf.push(0);
            k = k + 1;
            proof {
                assert(sbbuf@ =~= Seq::<u8>::new(k as nat, |i: int| 0u8));
            }
        }
        proof {
            assert(sbbuf@ =~= seq![0u8, 0u8, 0u8, 0u8, 0u8, 0u8]);
        }
        self.message_stream.send_message(
            out,
            crate::constant::RTMP_PROTOCOL_CONTROL_CHUNK_STREAM_ID,
            crate::constant::RTMP_PROTOCOL_CONTROL_MESSAGE_STREAM_ID,
            0,
            crate::constant::RTMP_USER_CONTROL_MESSAGE,
            sbbuf.as_slice(),
        );
        let ghost out4 = out@;
        let result_payload = self.connect_result_payload();
        self.message_stream.send_message(
            out,
            3,
            crate::constant::RTMP_NET_CONNECTION_STREAM_ID,
            0,
            crate::constant::RTMP_COMMAND_MESSAGE_AMF0,
            result_payload.as_slice(),
        );
        proof {
            let b1 = spec_chunk_seq(2, send_header(0, 0, 3, 4), be_bytes(7122, 4), c, 0);
            let b2 = spec_chunk_seq(2, send_header(0, 0, 5, 4), be_bytes(1048576, 4), c, 0);
            let b3 = spec_chunk_seq(
                2,
                send_header(0, 0, 6, 5),
                be_bytes(1048576, 4) + seq![2u8],
                c,
                0,
            );
            let b4 = spec_chunk_seq(
                2,
                send_header(0, 0, 4, 6),
                seq![0u8, 0u8, 0u8, 0u8, 0u8, 0u8],
                c,
                0,
            );
            let b5 = spec_chunk_seq(
                3,
                send_header(0, 0, 20, spec_encode_all(connect_result_vals()).len()),
                spec_encode_all(connect_result_vals()),
                c,
                0,
            );
            assert(Seq::<u8>::empty() + be_bytes(7122, 4) =~= be_bytes(7122, 4));
            assert(Seq::<u8>::empty() + be_bytes(1048576, 4) =~= be_bytes(1048576, 4));
            assert(out1 =~= start + b1);
            assert(out2 =~= start + b1 + b2);
            assert(out3 =~= start + b1 + b2 + b3);
            assert(out4 =~= start + b1 + b2 + b3 + b4);
            assert(out@ =~= start + b1 + b2 + b3 + b4 + b5);
            assert(start + connect_response_bytes(c) =~= start + b1 + b2 + b3 + b4 + b5);
        }
        Ok(())
    }
}

/// A transaction id, a null, and a string: the argument shape of
/// `releaseStream`, `FCPublish`, `FCUnpublish` and `getStreamLength`.
pub open spec fn tx_null_string_args_ok(bytes: Seq<u8>, pos: int) -> bool {
    let r1 = amf_parse_at(bytes, pos);
    &&& r1 matches Some((v1, p1))
    &&& r1->Some_0.0 is Number
    &&& ({
        let r2 = amf_parse_at(bytes, r1->Some_0.1);
        &&& r2 matches Some((v2, p2))
        &&& r2->Some_0.0 is Null
        &&& ({
            let r3 = amf_parse_at(bytes, r2->Some_0.1);
            &&& r3 matches Some((v3, p3))
            &&& r3->Some_0.0 is Str
        })
    })
}

impl RtmpServer {
    /// Consumes the arguments of `releaseStream` and kin; no reply is owed.
    pub fn handle_release_stream(&self, reader: &mut ByteReader) -> (res: Result<(), Error>)
        requires
            old(reader).wf(),
        ensures
            final(reader).wf(),
            final(reader).data@ == old(reader).data@,
            res is Ok <==> tx_null_string_args_ok(old(reader).data@, old(reader).pos as int),
    {
        let ghost bytes = reader.data@;
        let ghost p = reader.pos as int;
        let n = decode_amf_number(reader, true)?;
        proof {
            crate::utils::lemma_be_val_bound(bytes.subrange(p + 1, p + 9));
            assert(crate::utils::pow256(8) == 0x10000000000000000) by {
                reveal_with_fuel(crate::utils::pow256, 9);
            };
        }
        let _ = decode_amf_null(reader, true)?;
        let _ = decode_amf_string(reader, true)?;
        Ok(())
    }

    /// Consumes the arguments of `getStreamLength`; live streams have no
    /// length to report.
    pub fn handle_get_stream_length(&self, reader: &mut ByteReader) -> (res: Result<(), Error>)
        requires
            old(reader).wf(),
        ensures
            final(reader).wf(),
            final(reader).data@ == old(reader).data@,
            res is Ok <==> tx_null_string_args_ok(old(reader).data@, old(reader).pos as int),
    {
        let ghost bytes = reader.data@;
        let ghost p = reader.pos as int;
        let n = decode_amf_number(reader, true)?;
        proof {
            crate::utils::lemma_be_val_bound(bytes.subrange(p + 1, p + 9));
            assert(crate::utils::pow256(8) == 0x10000000000000000) by {
                reveal_with_fuel(crate::utils::pow256, 9);
            };
        }
        let _ = decode_amf_null(reader, true)?;
        let _stream_name = decode_amf_string(reader, true)?;
        Ok(())
    }
}

/// The `createStream` arguments: a transaction id and a command object that
/// is an object or null.
pub open spec fn create_stream_args_ok(bytes: Seq<u8>, pos: int) -> bool {
    let r1 = amf_parse_at(bytes, pos);
    &&& r1 matches Some((v1, p1))
    &&& r1->Some_0.0 is Number
    &&& ({
        let r2 = amf_parse_at(bytes, r1->Some_0.1);
        &&& r2 matches Some((v2, p2))
        &&& (r2->Some_0.0 is Object || r2->Some_0.0 is Null)
    })
}

/// The transaction id the `createStream` arguments carry.
pub open spec fn create_stream_tx(bytes: Seq<u8>, pos: int) -> u64 {
    match amf_parse_at(bytes, pos) {
        Some((AmfVal::Number(b), p1)) => b,
        _ => 0,
    }
}

/// The `_result` reply to `createStream`: the echoed transaction id and the
/// message-stream id the command arrived on, as a number.
pub open spec fn create_stream_response_bytes(c: nat, tx: u64, msid: u32) -> Seq<u8> {
    let payload = spec_encode_all(
        seq![
            AmfVal::Str("_result"@),
            AmfVal::Number(tx),
            AmfVal::Null,
            AmfVal::Number(f64_bits_of_int(msid as nat) as u64),
        ],
    );
    spec_chunk_seq(3, send_header(0, 0, 20, payload.len()), payload, c, 0)
}

impl RtmpServer {
    /// Replies to `createStream` with `_result(tx, null, stream id)`.
    pub fn handle_create_stream(
        &self,
        reader: &mut ByteReader,
        header: ChunkMessageHeader,
        out: &mut Vec<u8>,
    ) -> (res: Result<(), Error>)
        requires
            old(reader).wf(),
            self.wf(),
        ensures
            final(reader).wf(),
            final(reader).data@ == old(reader).data@,
            match res {
                Ok(()) => create_stream_args_ok(old(reader).data@, old(reader).pos as int)
                    && final(out)@ == old(out)@ + create_stream_response_bytes(
                    self.message_stream.max_chunk_size_write as nat,
                    create_stream_tx(old(reader).data@, old(reader).pos as int),
                    header.message_stream_id,
                ),
                Err(e) => {
                    &&& !create_stream_args_ok(old(reader).data@, old(reader).pos as int)
                    &&& final(out)@ == old(out)@
                    &&& ({
                        let bytes = old(reader).data@;
                        let r1 = amf_parse_at(bytes, old(reader).pos as int);
                        (r1 matches Some((v1, q1)) && v1 is Number && (amf_parse_at(bytes, q1)
                            matches Some((v2, q2)) && !(v2 is Object) && !(v2 is Null))) ==> e
                            == Error::UnexpectedAmfObjectType
                    })
                },
            },
    {
        let ghost bytes = reader.data@;
        let ghost p = reader.pos as int;
        let transaction_id = match decode_amf_number(reader, true) {
            Ok(x) => x,
            Err(e) => {
                return Err(e);
            },
        };
        proof {
            crate::utils::lemma_be_val_bound(bytes.subrange(p + 1, p + 9));
            assert(crate::utils::pow256(8) == 0x10000000000000000) by {
                reveal_with_fuel(crate::utils::pow256, 9);
            };
        }
        let cmd_object = match decode_amf_message(reader) {
            Ok(v) => v,
            Err(e) => {
                return Err(e);
            },
        };
        let ok = match &cmd_object {
            AmfObject::Object(_) => true,
            AmfObject::Null => true,
            _ => false,
        };
        if !ok {
            return Err(Error::UnexpectedAmfObjectType);
        }
        proof {
            lemma_session_literal_lens();
        }
        let payload = amf_payload_4(
            amf_str("_result"),
            amf_num(transaction_id),
            AmfObject::Null,
            amf_num(f64_bits_of_u32(header.message_stream_id)),
        );
        proof {
            let vals = seq![
                AmfVal::Str("_result"@),
                AmfVal::Number(transaction_id),
                AmfVal::Null,
                AmfVal::Number(f64_bits_of_int(header.message_stream_id as nat) as u64),
            ];
            assert(payload@ == spec_encode_all(vals));
            assert forall|i: int| 0 <= i < vals.len() implies small_val(#[trigger] vals[i]) by {}
            lemma_payload_small_len(vals);
        }
        self.message_stream.send_message(
            out,
            3,
            crate::constant::RTMP_NET_CONNECTION_STREAM_ID,
            0,
            crate::constant::RTMP_COMMAND_MESSAGE_AMF0,
            payload.as_slice(),
        );
        Ok(())
    }

    /// Applies a `SetChunkSize` control message: the four-byte big-endian
    /// value, whose most significant bit must be zero, becomes the bound on
    /// every chunk this side subsequently accepts.
    pub fn handle_set_chunk_size(&mut self, message: &Message) -> (res: Result<(), Error>)
        requires
            old(self).wf(),
        ensures
            final(self).wf(),
            final(self).stream_name@ == old(self).stream_name@,
            final(self).conn_id == old(self).conn_id,
            match res {
                Ok(()) => {
                    &&& message.message@.len() == 4
                    &&& be_val(message.message@) < 0x80000000
                    &&& final(self).message_stream.max_chunk_size_read == be_val(message.message@)
                    &&& final(self).message_stream@ == (StreamModel {
                        max_chunk_size_read: be_val(message.message@),
                        ..old(self).message_stream@
                    })
                },
                Err(e) => {
                    &&& e == Error::InconsistentMessageLength
                    &&& (message.message@.len() != 4 || be_val(message.message@) >= 0x80000000)
                    &&& *final(self) == *old(self)
                },
            },
    {
        if message.message.len() != 4 {
            return Err(Error::InconsistentMessageLength);
        }
        let v = aggregate(&message.message, false);
        if v >= 0x80000000 {
            return Err(Error::InconsistentMessageLength);
        }
        self.message_stream.max_chunk_size_read = v as usize;
        Ok(())
    }

    /// Records a `WindowAcknowledgementSize` control message; only its
    /// length is checked.
    pub fn handle_window_ack_size(&self, message: &Message) -> (res: Result<(), Error>)
        ensures
            res is Ok <==> message.message@.len() == 4,
            res matches Err(e) ==> e == Error::InconsistentMessageLength,
    {
        if message.message.len() != 4 {
            return Err(Error::InconsistentMessageLength);
        }
        Ok(())
    }

    /// Records a `SetPeerBandwidth` control message: a four-byte window and
    /// a one-byte limit type; only its length is checked.
    pub fn handle_set_peer_bandwidth(&self, message: &Message) -> (res: Result<(), Error>)
        ensures
            res is Ok <==> message.message@.len() == 5,
            res matches Err(e) ==> e == Error::InconsistentMessageLength,
    {
        if message.message.len() != 5 {
            return Err(Error::InconsistentMessageLength);
        }
        Ok(())
    }

    /// Reads a user control event: `SetBufferLength` carries a stream id and
    /// a length; other events carry nothing this side acts on.
    pub fn handle_user_control_message(&self, message: &Message) -> (res: Result<(), Error>)
        ensures
            res is Ok <==> user_control_ok(message.message@),
            res matches Err(e) ==> e == Error::Io,
    {
        let mut cursor = ByteReader::new(&message.message);
        let event_type = read_u16(&mut cursor)?;
        if event_type == crate::constant::RTMP_USER_CONTROL_SET_BUFFER_LENGTH {
            let _stream_id = read_u32(&mut cursor)?;
            let _buffer_length = read_u32(&mut cursor)?;
        }
        Ok(())
    }

    /// Applies an `Abort` control message: the partial message of the named
    /// chunk stream is dropped without being emitted.
    pub fn handle_abort_message(&mut self, message: &Message) -> (res: Result<(), Error>)
        requires
            old(self).wf(),
        ensures
            final(self).wf(),
            final(self).stream_name@ == old(self).stream_name@,
            final(self).conn_id == old(self).conn_id,
            match res {
                Ok(()) => {
                    &&& message.message@.len() >= 4
                    &&& final(self).message_stream@ == (StreamModel {
                        channels: old(self).message_stream@.channels.remove(
                            be_val(message.message@.subrange(0, 4)) as u32,
                        ),
                        ..old(self).message_stream@
                    })
                },
                Err(e) => e == Error::Io && message.message@.len() < 4 && *final(self) == *old(self),
            },
    {
        let mut cursor = ByteReader::new(&message.message);
        let chunk_stream_id = read_u32(&mut cursor)?;
        proof {
            crate::utils::lemma_be_val_bound(message.message@.subrange(0, 4));
            assert(crate::utils::pow256(4) == 0x100000000) by {
                reveal_with_fuel(crate::utils::pow256, 5);
            };
        }
        self.message_stream.channels.remove(&chunk_stream_id);
        proof {
            assert(self.message_stream@.channels =~= old(self).message_stream@.channels.remove(
                chunk_stream_id,
            ));
            assert(self.message_stream@.prev =~= old(self).message_stream@.prev);
            assert(self.message_stream@ == (StreamModel {
                channels: old(self).message_stream@.channels.remove(chunk_stream_id),
                ..old(self).message_stream@
            }));
        }
        Ok(())
    }
}

pub proof fn lemma_targets_step(s: Seq<RtmpClient>, i: int, om: OutboundModel)
    requires
        0 <= i < s.len(),
    ensures
        broadcast_targets(s.take(i + 1), om) == if s[i].paused {
            broadcast_targets(s.take(i), om)
        } else {
            broadcast_targets(s.take(i), om).push((s[i].id, om))
        },
{
    assert(s.take(i + 1).drop_last() =~= s.take(i));
    assert(s.take(i + 1).last() == s[i]);
}

/// Every delivery a broadcast plans goes to a subscriber id.
pub proof fn lemma_targets_ids(clients: Seq<RtmpClient>, om: OutboundModel, id: u64)
    requires
        forall|j: int| 0 <= j < clients.len() ==> (#[trigger] clients[j]).id != id,
    ensures
        forall|j: int|
            0 <= j < broadcast_targets(clients, om).len() ==> (#[trigger] broadcast_targets(
                clients,
                om,
            )[j]).0 != id,
    decreases clients.len(),
{
    if clients.len() > 0 {
        assert(forall|j: int|
            0 <= j < clients.drop_last().len() ==> (#[trigger] clients.drop_last()[j]).id != id);
        lemma_targets_ids(clients.drop_last(), om, id);
        assert(clients.last() == clients[clients.len() - 1]);
        let front = broadcast_targets(clients.drop_last(), om);
        let t = broadcast_targets(clients, om);
        assert forall|j: int| 0 <= j < t.len() implies (#[trigger] t[j]).0 != id by {
            if j < front.len() {
                assert(t[j] == front[j]);
            } else {
                assert(!clients.last().paused && t[j] == (clients.last().id, om));
            }
        }
    }
}

/// An admitted, unpaused subscriber receives each broadcast message exactly
/// once, with the published payload; a paused or absent one receives
/// nothing.
pub proof fn lemma_broadcast_delivers_once(
    clients: Seq<RtmpClient>,
    om: OutboundModel,
    k: int,
    id: u64,
)
    requires
        0 <= k < clients.len(),
        clients[k].id == id,
        forall|j: int| 0 <= j < clients.len() && j != k ==> (#[trigger] clients[j]).id != id,
    ensures
        clients[k].paused ==> forall|j: int|
            0 <= j < broadcast_targets(clients, om).len() ==> (#[trigger] broadcast_targets(
                clients,
                om,
            )[j]).0 != id,
        !clients[k].paused ==> exists|j: int|
            0 <= j < broadcast_targets(clients, om).len() && broadcast_targets(clients, om)[j] == (
            id,
            om,
            ) && (forall|j2: int|
                0 <= j2 < broadcast_targets(clients, om).len() && j2 != j
                    ==> (#[trigger] broadcast_targets(clients, om)[j2]).0 != id),
    decreases clients.len(),
{
    let t = broadcast_targets(clients, om);
    let front = broadcast_targets(clients.drop_last(), om);
    if k == clients.len() - 1 {
        assert(clients.last() == clients[k]);
        assert(forall|j: int|
            0 <= j < clients.drop_last().len() ==> (#[trigger] clients.drop_last()[j]).id != id);
        lemma_targets_ids(clients.drop_last(), om, id);
        if clients[k].paused {
            assert(t == front);
            assert forall|j: int| 0 <= j < t.len() implies (#[trigger] t[j]).0 != id by {
                assert(t[j] == front[j]);
            }
        } else {
            assert(t == front.push((id, om)));
            assert(t[front.len() as int] == (id, om));
            assert forall|j2: int| 0 <= j2 < t.len() && j2 != front.len() implies (
            #[trigger] t[j2]).0 != id by {
                assert(t[j2] == front[j2]);
            }
        }
    } else {
        assert(clients.drop_last()[k] == clients[k]);
        assert(forall|j: int|
            0 <= j < clients.drop_last().len() && j != k ==> (#[trigger] clients.drop_last()[j]).id
                != id);
        lemma_broadcast_delivers_once(clients.drop_last(), om, k, id);
        assert(clients.last() == clients[clients.len() - 1]);
        assert(clients.last().id != id);
        if clients[k].paused {
            assert forall|j: int| 0 <= j < t.len() implies (#[trigger] t[j]).0 != id by {
                if j < front.len() {
                    assert(t[j] == front[j]);
                } else {
                    assert(t == front.push((clients.last().id, om)));
                    assert(t[j] == (clients.last().id, om));
                }
            }
        } else {
            let j = choose|j: int|
                0 <= j < front.len() && front[j] == (id, om) && (forall|j2: int|
                    0 <= j2 < front.len() && j2 != j ==> (#[trigger] front[j2]).0 != id);
            assert(t[j] == (id, om));
            assert forall|j2: int| 0 <= j2 < t.len() && j2 != j implies (#[trigger] t[j2]).0 != id
                by {
                if j2 < front.len() {
                    assert(t[j2] == front[j2]);
                } else {
                    assert(t == front.push((clients.last().id, om)));
                    assert(t[j2] == (clients.last().id, om));
                }
            }
        }
    }
}

impl RtmpMediaStream {
    /// Plans one broadcast: one delivery per subscriber that is not paused,
    /// in subscriber order, each carrying the same message on chunk stream 3.
    pub fn broadcast(
        &self,
        timestamp: u32,
        type_id: u8,
        message: &Message,
        fanout: &mut Vec<(u64, OutboundMessage)>,
    )
        ensures
            fanout_view(final(fanout)@) == fanout_view(old(fanout)@) + broadcast_targets(
                self@.clients,
                OutboundModel {
                    chunk_stream_id: 3,
                    message_stream_id: message.header.message_stream_id,
                    timestamp,
                    message_type_id: type_id,
                    payload: message.message@,
                },
            ),
    {
        let ghost om = OutboundModel {
            chunk_stream_id: 3,
            message_stream_id: message.header.message_stream_id,
            timestamp,
            message_type_id: type_id,
            payload: message.message@,
        };
        let mut i: usize = 0;
        proof {
            assert(self@.clients.take(0) =~= Seq::<RtmpClient>::empty());
            assert(fanout_view(fanout@) =~= fanout_view(fanout@) + broadcast_targets(
                self@.clients.take(0),
                om,
            ));
        }
        while i < self.clients.len()
            invariant
                i <= self@.clients.len(),
                self@.clients.len() == self.clients@.len(),
                om == (OutboundModel {
                    chunk_stream_id: 3,
                    message_stream_id: message.header.message_stream_id,
                    timestamp,
                    message_type_id: type_id,
                    payload: message.message@,
                }),
                fanout_view(fanout@) == fanout_view(old(fanout)@) + broadcast_targets(
                    self@.clients.take(i as int),
                    om,
                ),
            decreases self@.clients.len() - i,
        {
            let client = self.clients[i];
            let ghost pre = fanout@;
            if !client.paused {
                let payload = clone_bytes(&message.message);
                let entry = (
                    client.id,
                    OutboundMessage {
                        chunk_stream_id: 3,
                        message_stream_id: message.header.message_stream_id,
                        timestamp,
                        message_type_id: type_id,
                        payload,
                    },
                );
                fanout.push(entry);
            }
            proof {
                lemma_targets_step(self@.clients, i as int, om);
                let prev_t = broadcast_targets(self@.clients.take(i as int), om);
                let new_t = broadcast_targets(self@.clients.take(i + 1), om);
                if self@.clients[i as int].paused {
                    assert(fanout_view(fanout@) =~= fanout_view(old(fanout)@) + new_t);
                } else {
                    assert(fanout@ == pre.push(fanout@.last()));
                    assert(fanout@.last().0 == client.id && fanout@.last().1@ == om);
                    assert(new_t == prev_t.push((client.id, om)));
                    assert(fanout_view(pre) == fanout_view(old(fanout)@) + prev_t);
                    assert(fanout_view(pre).len() == pre.len());
                    assert(fanout_view(old(fanout)@).len() + prev_t.len() == pre.len());
                    assert forall|j: int|
                        0 <= j < fanout@.len() implies fanout_view(fanout@)[j] == (fanout_view(
                        old(fanout)@,
                    ) + new_t)[j] by {
                        assert(fanout_view(fanout@)[j] == (fanout@[j].0, fanout@[j].1@));
                        if j < pre.len() {
                            assert(fanout@[j] == pre[j]);
                            assert(fanout_view(pre)[j] == (fanout_view(old(fanout)@) + prev_t)[j]);
                            assert(fanout_view(pre)[j] == (pre[j].0, pre[j].1@));
                            if j >= fanout_view(old(fanout)@).len() {
                                assert(new_t[j - fanout_view(old(fanout)@).len()] == prev_t[j
                                    - fanout_view(old(fanout)@).len()]);
                            }
                        } else {
                            assert(j == pre.len());
                            assert(fanout@[j] == fanout@.last());
                            assert(new_t[prev_t.len() as int] == (client.id, om));
                            assert((fanout_view(old(fanout)@) + new_t)[j] == new_t[prev_t.len() as int]);
                        }
                    }
                    assert(fanout_view(fanout@) =~= fanout_view(old(fanout)@) + new_t);
                }
            }
            i = i + 1;
        }
        proof {
            assert(self@.clients.take(self@.clients.len() as int) =~= self@.clients);
        }
    }
}

/// The publish outcome: either the name was free and the caller now holds
/// it, or another publisher does and the request is denied.
pub open spec fn publish_granted(reg: Registry, name: Seq<char>) -> bool {
    match registry_find(reg, name) {
        Some(i) => !reg@[i].1@.published,
        None => true,
    }
}

/// A name, then the registry entry for it after a grant to a publisher.
pub open spec fn registry_after_publish(reg: Registry, name: Seq<char>) -> Seq<
    (Seq<char>, MediaStreamModel),
> {
    let rv = registry_view(reg);
    match registry_find(reg, name) {
        Some(i) => rv.update(
            i,
            (
                rv[i].0,
                MediaStreamModel {
                    clients: rv[i].1.clients,
                    metadata: rv[i].1.metadata,
                    published: true,
                },
            ),
        ),
        None => rv.push(
            (
                name,
                MediaStreamModel { clients: Seq::empty(), metadata: None, published: true },
            ),
        ),
    }
}

/// The `publish` arguments: a transaction id, a null, the publishing name,
/// and the publishing type.
pub open spec fn publish_args_ok(bytes: Seq<u8>, pos: int) -> bool {
    let r1 = amf_parse_at(bytes, pos);
    &&& r1 matches Some((v1, p1))
    &&& r1->Some_0.0 is Number
    &&& ({
        let r2 = amf_parse_at(bytes, r1->Some_0.1);
        &&& r2 matches Some((v2, p2))
        &&& r2->Some_0.0 is Null
        &&& ({
            let r3 = amf_parse_at(bytes, r2->Some_0.1);
            &&& r3 matches Some((v3, p3))
            &&& r3->Some_0.0 is Str
            &&& ({
                let r4 = amf_parse_at(bytes, r3->Some_0.1);
                &&& r4 matches Some((v4, p4))
                &&& r4->Some_0.0 is Str
            })
        })
    })
}

/// The stream name that `publish` or `play` arguments carry.
pub open spec fn third_arg_str(bytes: Seq<u8>, pos: int) -> Seq<char> {
    let r1 = amf_parse_at(bytes, pos);
    let r2 = amf_parse_at(bytes, r1->Some_0.1);
    match amf_parse_at(bytes, r2->Some_0.1) {
        Some((AmfVal::Str(s), _)) => s,
        _ => Seq::empty(),
    }
}

impl RtmpServer {
    /// Handles `publish`: grants the name if no publisher holds it and
    /// replies `NetStream.Publish.Start`; otherwise replies
    /// `NetStream.Publish.Denied` and leaves both the registry entry and
    /// this connection's role unchanged.
    #[verifier::rlimit(80)]
    pub fn handle_publish(
        &mut self,
        reader: &mut ByteReader,
        media_streams: &mut Registry,
        out: &mut Vec<u8>,
    ) -> (res: Result<(), Error>)
        requires
            old(reader).wf(),
            old(self).wf(),
        ensures
            final(reader).wf(),
            final(reader).data@ == old(reader).data@,
            final(self).wf(),
            final(self).message_stream@ == old(self).message_stream@,
            final(self).conn_id == old(self).conn_id,
            registry_wf(*old(media_streams)) ==> registry_wf(*final(media_streams)),
            match res {
                Ok(()) => ({
                    let bytes = old(reader).data@;
                    let p = old(reader).pos as int;
                    let name = third_arg_str(bytes, p);
                    let c = old(self).message_stream.max_chunk_size_write as nat;
                    &&& publish_args_ok(bytes, p)
                    &&& if publish_granted(*old(media_streams), name) {
                        &&& registry_view(*final(media_streams)) == registry_after_publish(
                            *old(media_streams),
                            name,
                        )
                        &&& final(self).stream_name@ == name
                        &&& final(out)@ == old(out)@ + spec_chunk_seq(
                            3,
                            send_header(
                                0,
                                0,
                                20,
                                on_status_payload("NetStream.Publish.Start"@).len(),
                            ),
                            on_status_payload("NetStream.Publish.Start"@),
                            c,
                            0,
                        )
                    } else {
                        &&& registry_view(*final(media_streams)) == registry_view(
                            *old(media_streams),
                        )
                        &&& final(self).stream_name@ == old(self).stream_name@
                        &&& final(out)@ == old(out)@ + spec_chunk_seq(
                            3,
                            send_header(
                                0,
                                0,
                                20,
                                on_status_error_payload("NetStream.Publish.Denied"@).len(),
                            ),
                            on_status_error_payload("NetStream.Publish.Denied"@),
                            c,
                            0,
                        )
                    }
                }),
                Err(e) => !publish_args_ok(old(reader).data@, old(reader).pos as int)
                    && final(out)@ == old(out)@ && registry_view(*final(media_streams))
                    == registry_view(*old(media_streams)) && final(self).stream_name@ == old(
                    self,
                ).stream_name@,
            },
    {
        let ghost bytes = reader.data@;
        let ghost p = reader.pos as int;
        let _transaction_id = match decode_amf_number(reader, true) {
            Ok(x) => x,
            Err(e) => {
                return Err(e);
            },
        };
        proof {
            crate::utils::lemma_be_val_bound(bytes.subrange(p + 1, p + 9));
            assert(crate::utils::pow256(8) == 0x10000000000000000) by {
                reveal_with_fuel(crate::utils::pow256, 9);
            };
        }
        if let Err(e) = decode_amf_null(reader, true) {
            return Err(e);
        }
        let publishing_name = match decode_amf_string(reader, true) {
            Ok(s) => s,
            Err(e) => {
                return Err(e);
            },
        };
        let _publishing_type = match decode_amf_string(reader, true) {
            Ok(s) => s,
            Err(e) => {
                return Err(e);
            },
        };
        proof {
            lemma_session_literal_lens();
        }
        let found = registry_lookup(media_streams, &publishing_name);
        let granted: bool;
        match found {
            Some(i) => {
                if media_streams[i].1.published {
                    granted = false;
                } else {
                    granted = true;
                    let mut entry = media_streams.remove(i);
                    entry.1.published = true;
                    media_streams.insert(i, entry);
                    proof {
                        assert(registry_view(*media_streams) =~= registry_after_publish(
                            *old(media_streams),
                            publishing_name@,
                        ));
                    }
                }
            },
            None => {
                granted = true;
                let mut entry = RtmpMediaStream::default();
                entry.published = true;
                media_streams.push((clone_string(&publishing_name), entry));
                proof {
                    assert(registry_view(*media_streams) =~= registry_after_publish(
                        *old(media_streams),
                        publishing_name@,
                    ));
                }
            },
        }
        let payload = if granted {
            on_status("NetStream.Publish.Start")
        } else {
            on_status_error("NetStream.Publish.Denied")
        };
        self.message_stream.send_message(
            out,
            3,
            crate::constant::RTMP_NET_CONNECTION_STREAM_ID,
            0,
            crate::constant::RTMP_COMMAND_MESSAGE_AMF0,
            payload.as_slice(),
        );
        if granted {
            self.stream_name = publishing_name;
        }
        proof {
            if !granted {
                assert(registry_view(*media_streams) =~= registry_view(*old(media_streams)));
            }
            if registry_wf(*old(media_streams)) {
                assert forall|i: int| 0 <= i < media_streams@.len() implies match (
                #[trigger] media_streams@[i].1@).metadata {
                    Some(m) => m.payload.len() <= 0xFFFFFF,
                    None => true,
                } by {
                    assert(registry_view(*media_streams)[i].1 == media_streams@[i].1@);
                    if i < old(media_streams)@.len() {
                        assert(registry_view(*old(media_streams))[i].1 == old(
                            media_streams,
                        )@[i].1@);
                    }
                }
            }
        }
        Ok(())
    }

    /// Handles `deleteStream`: drops the registry entry this connection's
    /// role points at; the caller closes the session afterwards.
    pub fn handle_delete_stream(&self, media_streams: &mut Registry) -> (res: Result<(), Error>)
        ensures
            res is Ok,
            registry_wf(*old(media_streams)) ==> registry_wf(*final(media_streams)),
            match registry_find(*old(media_streams), self.stream_name@) {
                Some(i) => registry_view(*final(media_streams)) == registry_view(
                    *old(media_streams),
                ).subrange(0, i) + registry_view(*old(media_streams)).subrange(
                    i + 1,
                    registry_view(*old(media_streams)).len() as int,
                ),
                None => registry_view(*final(media_streams)) == registry_view(
                    *old(media_streams),
                ),
            },
    {
        let found = registry_lookup(media_streams, &self.stream_name);
        match found {
            Some(i) => {
                media_streams.remove(i);
                proof {
                    let rv = registry_view(*old(media_streams));
                    assert(registry_view(*media_streams) =~= rv.subrange(0, i as int) + rv.subrange(
                        i as int + 1,
                        rv.len() as int,
                    ));
                    if registry_wf(*old(media_streams)) {
                        assert forall|j: int| 0 <= j < media_streams@.len() implies match (
                        #[trigger] media_streams@[j].1@).metadata {
                            Some(m) => m.payload.len() <= 0xFFFFFF,
                            None => true,
                        } by {
                            if j < i {
                                assert(media_streams@[j].1@ == old(media_streams)@[j].1@);
                            } else {
                                assert(media_streams@[j].1@ == old(media_streams)@[j + 1].1@);
                            }
                        }
                    }
                }
            },
            None => {
                proof {
                    assert(registry_view(*media_streams) =~= registry_view(*old(media_streams)));
                }
            },
        }
        Ok(())
    }
}

/// A copy of a string.
pub fn clone_string(s: &String) -> (r: String)
    ensures
        r@ == s@,
{
    s.as_str().to_owned()
}

/// The `play` arguments: a transaction id, a null, and the stream name;
/// trailing start, duration and reset values are optional.
pub open spec fn play_args_ok(bytes: Seq<u8>, pos: int) -> bool {
    let r1 = amf_parse_at(bytes, pos);
    &&& r1 matches Some((v1, p1))
    &&& r1->Some_0.0 is Number
    &&& ({
        let r2 = amf_parse_at(bytes, r1->Some_0.1);
        &&& r2 matches Some((v2, p2))
        &&& r2->Some_0.0 is Null
        &&& ({
            let r3 = amf_parse_at(bytes, r2->Some_0.1);
            &&& r3 matches Some((v3, p3))
            &&& r3->Some_0.0 is Str
        })
    })
}

/// The payload of the `|RtmpSampleAccess` data message.
pub open spec fn sample_access_payload() -> Seq<u8> {
    spec_encode_all(
        seq![AmfVal::Str("|RtmpSampleAccess"@), AmfVal::Boolean(true), AmfVal::Boolean(true)],
    )
}

/// Everything `play` sends: the chunk-size raise (packed under the old write
/// chunk size), a stream-begin event, the two `onStatus` reports, the sample
/// access data message, and the cached metadata when the stream already
/// carries some.
pub open spec fn play_response_bytes(c0: nat, meta: Option<MessageModel>) -> Seq<u8> {
    let c1: nat = 0x7FFFFFFF;
    spec_chunk_seq(2, send_header(0, 0, 1, 4), be_bytes(0x7FFFFFFF, 4), c0, 0) + spec_chunk_seq(
        2,
        send_header(0, 0, 4, 6),
        seq![0u8, 0u8, 0u8, 0u8, 0u8, 0u8],
        c1,
        0,
    ) + spec_chunk_seq(
        3,
        send_header(0, 0, 20, on_status_payload("NetStream.Play.Reset"@).len()),
        on_status_payload("NetStream.Play.Reset"@),
        c1,
        0,
    ) + spec_chunk_seq(
        3,
        send_header(0, 0, 20, on_status_payload("NetStream.Play.Start"@).len()),
        on_status_payload("NetStream.Play.Start"@),
        c1,
        0,
    ) + spec_chunk_seq(3, send_header(0, 0, 18, sample_access_payload().len()), sample_access_payload(), c1, 0)
        + (match meta {
        Some(m) => spec_chunk_seq(
            3,
            send_header(m.header.message_stream_id, m.header.timestamp, 18, m.payload.len()),
            m.payload,
            c1,
            0,
        ),
        None => Seq::empty(),
    })
}

/// The registry after a subscriber is admitted to `name`.
pub open spec fn registry_after_play(reg: Registry, name: Seq<char>, client: RtmpClient) -> Seq<
    (Seq<char>, MediaStreamModel),
> {
    let rv = registry_view(reg);
    match registry_find(reg, name) {
        Some(i) => rv.update(
            i,
            (
                rv[i].0,
                MediaStreamModel {
                    clients: rv[i].1.clients.push(client),
                    metadata: rv[i].1.metadata,
                    published: rv[i].1.published,
                },
            ),
        ),
        None => rv.push(
            (
                name,
                MediaStreamModel { clients: seq![client], metadata: None, published: false },
            ),
        ),
    }
}

/// The metadata that `play` replays for a name, if any is cached.
pub open spec fn cached_metadata(reg: Registry, name: Seq<char>) -> Option<MessageModel> {
    match registry_find(reg, name) {
        Some(i) => registry_view(reg)[i].1.metadata,
        None => None,
    }
}

impl RtmpServer {
    /// Sends everything `play` owes on this connection, raising the write
    /// chunk size as the first message announces.
    #[verifier::rlimit(100)]
    #[verifier::spinoff_prover]
    fn play_send_responses(
        &mut self,
        out: &mut Vec<u8>,
        meta: &Option<(u32, u32, Vec<u8>)>,
        Ghost(meta_model): Ghost<Option<MessageModel>>,
    )
        requires
            old(self).wf(),
            match *meta {
                Some((ms, ts, ref pl)) => {
                    &&& meta_model matches Some(m)
                    &&& meta_model->Some_0.header.message_stream_id == ms
                    &&& meta_model->Some_0.header.timestamp == ts
                    &&& meta_model->Some_0.payload == pl@
                    &&& pl@.len() <= 0xFFFFFF
                },
                None => meta_model is None,
            },
        ensures
            final(self).wf(),
            final(self).stream_name@ == old(self).stream_name@,
            final(self).conn_id == old(self).conn_id,
            final(self).message_stream@ == (StreamModel {
                max_chunk_size_write: 0x7FFFFFFF,
                ..old(self).message_stream@
            }),
            final(out)@ == old(out)@ + play_response_bytes(
                old(self).message_stream.max_chunk_size_write as nat,
                meta_model,
            ),
    {
        proof {
            lemma_session_literal_lens();
        }
        let ghost c0 = self.message_stream.max_chunk_size_write as nat;
        let ghost out0 = out@;
        let mut csbuf: Vec<u8> = Vec::new();
        crate::utils::push_u32_be(&mut csbuf, 0x7FFFFFFF);
        proof {
            crate::utils::lemma_be_bytes_len(0x7FFFFFFF, 4);
            assert(csbuf@ =~= be_bytes(0x7FFFFFFF, 4));
        }
        self.message_stream.send_message(
            out,
            crate::constant::RTMP_PROTOCOL_CONTROL_CHUNK_STREAM_ID,
            crate::constant::RTMP_PROTOCOL_CONTROL_MESSAGE_STREAM_ID,
            0,
            crate::constant::RTMP_SET_CHUNK_SIZE,
            csbuf.as_slice(),
        );
        self.message_stream.max_chunk_size_write = 0x7FFFFFFF;
        let ghost out1 = out@;
        let mut sbbuf: Vec<u8> = Vec::new();
        let mut k: usize = 0;
        while k < 6
            invariant
                k <= 6,
                sbbuf@ =~= Seq::<u8>::new(k as nat, |i: int| 0u8),
            decreases 6 - k,
        {
            sbbuf.push(0);
            k = k + 1;
            proof {
                assert(sbbuf@ =~= Seq::<u8>::new(k as nat, |i: int| 0u8));
            }
        }
        proof {
            assert(sbbuf@ =~= seq![0u8, 0u8, 0u8, 0u8, 0u8, 0u8]);
        }
        self.message_stream.send_message(
            out,
            crate::constant::RTMP_PROTOCOL_CONTROL_CHUNK_STREAM_ID,
            crate::constant::RTMP_PROTOCOL_CONTROL_MESSAGE_STREAM_ID,
            0,
            crate::constant::RTMP_USER_CONTROL_MESSAGE,
            sbbuf.as_slice(),
        );
        let ghost out2 = out@;
        let reset_payload = on_status("NetStream.Play.Reset");
        self.message_stream.send_message(
            out,
            3,
            crate::constant::RTMP_NET_CONNECTION_STREAM_ID,
            0,
            crate::constant::RTMP_COMMAND_MESSAGE_AMF0,
            reset_payload.as_slice(),
        );
        let ghost out3 = out@;
        let start_payload = on_status("NetStream.Play.Start");
        self.message_stream.send_message(
            out,
            3,
            crate::constant::RTMP_NET_CONNECTION_STREAM_ID,
            0,
            crate::constant::RTMP_COMMAND_MESSAGE_AMF0,
            start_payload.as_slice(),
        );
        let ghost out4 = out@;
        let sample_payload = amf_payload_3(
            amf_str("|RtmpSampleAccess"),
            AmfObject::Boolean(true),
            AmfObject::Boolean(true),
        );
        proof {
            let vals = seq![
                AmfVal::Str("|RtmpSampleAccess"@),
                AmfVal::Boolean(true),
                AmfVal::Boolean(true),
            ];
            assert(sample_payload@ == spec_encode_all(vals));
            assert forall|i: int| 0 <= i < vals.len() implies small_val(#[trigger] vals[i]) by {}
            lemma_payload_small_len(vals);
        }
        self.message_stream.send_message(
            out,
            3,
            crate::constant::RTMP_NET_CONNECTION_STREAM_ID,
            0,
            crate::constant::RTMP_DATA_MESSAGE_AMF0,
            sample_payload.as_slice(),
        );
        let ghost out5 = out@;
        match meta {
            Some((msid, ts, payload)) => {
                self.message_stream.send_message(
                    out,
                    3,
                    *msid,
                    *ts,
                    crate::constant::RTMP_DATA_MESSAGE_AMF0,
                    payload.as_slice(),
                );
            },
            None => {},
        }
        proof {
            let c1: nat = 0x7FFFFFFF;
            let b1 = spec_chunk_seq(2, send_header(0, 0, 1, 4), be_bytes(0x7FFFFFFF, 4), c0, 0);
            let b2 = spec_chunk_seq(
                2,
                send_header(0, 0, 4, 6),
                seq![0u8, 0u8, 0u8, 0u8, 0u8, 0u8],
                c1,
                0,
            );
            let b3 = spec_chunk_seq(
                3,
                send_header(0, 0, 20, on_status_payload("NetStream.Play.Reset"@).len()),
                on_status_payload("NetStream.Play.Reset"@),
                c1,
                0,
            );
            let b4 = spec_chunk_seq(
                3,
                send_header(0, 0, 20, on_status_payload("NetStream.Play.Start"@).len()),
                on_status_payload("NetStream.Play.Start"@),
                c1,
                0,
            );
            let b5 = spec_chunk_seq(
                3,
                send_header(0, 0, 18, sample_access_payload().len()),
                sample_access_payload(),
                c1,
                0,
            );
            let b6 = match meta_model {
                Some(m) => spec_chunk_seq(
                    3,
                    send_header(
                        m.header.message_stream_id,
                        m.header.timestamp,
                        18,
                        m.payload.len(),
                    ),
                    m.payload,
                    c1,
                    0,
                ),
                None => Seq::<u8>::empty(),
            };
            assert(out1 =~= out0 + b1);
            assert(out2 =~= out0 + b1 + b2);
            assert(out3 =~= out0 + b1 + b2 + b3);
            assert(out4 =~= out0 + b1 + b2 + b3 + b4);
            assert(out5 =~= out0 + b1 + b2 + b3 + b4 + b5);
            assert(out@ =~= out0 + b1 + b2 + b3 + b4 + b5 + b6);
            assert(out0 + play_response_bytes(c0, meta_model) =~= out0 + b1 + b2 + b3 + b4 + b5
                + b6);
        }
    }

    /// Handles `play`: raises the write chunk size, sends the status
    /// sequence and any cached metadata, admits this connection as a
    /// subscriber of the named stream, and records the subscriber role.
    #[verifier::rlimit(100)]
    #[verifier::spinoff_prover]
    pub fn handle_play(
        &mut self,
        reader: &mut ByteReader,
        media_streams: &mut Registry,
        out: &mut Vec<u8>,
    ) -> (res: Result<(), Error>)
        requires
            old(reader).wf(),
            old(self).wf(),
            registry_wf(*old(media_streams)),
        ensures
            final(reader).wf(),
            final(reader).data@ == old(reader).data@,
            final(self).wf(),
            registry_wf(*final(media_streams)),
            final(self).conn_id == old(self).conn_id,
            match res {
                Ok(()) => ({
                    let bytes = old(reader).data@;
                    let p = old(reader).pos as int;
                    let name = third_arg_str(bytes, p);
                    let c0 = old(self).message_stream.max_chunk_size_write as nat;
                    &&& play_args_ok(bytes, p)
                    &&& final(self).message_stream@ == (StreamModel {
                        max_chunk_size_write: 0x7FFFFFFF,
                        ..old(self).message_stream@
                    })
                    &&& final(self).stream_name@ == name
                    &&& registry_view(*final(media_streams)) == registry_after_play(
                        *old(media_streams),
                        name,
                        RtmpClient { id: old(self).conn_id, paused: false },
                    )
                    &&& final(out)@ == old(out)@ + play_response_bytes(
                        c0,
                        cached_metadata(*old(media_streams), name),
                    )
                }),
                Err(e) => !play_args_ok(old(reader).data@, old(reader).pos as int) && final(out)@
                    == old(out)@ && registry_view(*final(media_streams)) == registry_view(
                    *old(media_streams),
                ) && final(self).stream_name@ == old(self).stream_name@
                    && final(self).message_stream@ == old(self).message_stream@,
            },
    {
        let ghost bytes = reader.data@;
        let ghost p = reader.pos as int;
        let _transaction_id = match decode_amf_number(reader, true) {
            Ok(x) => x,
            Err(e) => {
                return Err(e);
            },
        };
        proof {
            crate::utils::lemma_be_val_bound(bytes.subrange(p + 1, p + 9));
            assert(crate::utils::pow256(8) == 0x10000000000000000) by {
                reveal_with_fuel(crate::utils::pow256, 9);
            };
        }
        if let Err(e) = decode_amf_null(reader, true) {
            return Err(e);
        }
        let stream_name = match decode_amf_string(reader, true) {
            Ok(s) => s,
            Err(e) => {
                return Err(e);
            },
        };
        // optional start, duration and reset arguments; faults here are not
        // errors
        let _start = decode_amf_message(reader);
        let _duration = decode_amf_message(reader);
        let _reset = decode_amf_message(reader);
        let found = registry_lookup(media_streams, &stream_name);
        let meta: Option<(u32, u32, Vec<u8>)> = match found {
            Some(i) => match &media_streams[i].1.metadata {
                Some(m) => Some(
                    (
                        m.header.message_stream_id,
                        m.header.timestamp,
                        clone_bytes(&m.message),
                    ),
                ),
                None => None,
            },
            None => None,
        };
        let ghost meta_model = cached_metadata(*media_streams, stream_name@);
        proof {
            match found {
                Some(i) => {
                    assert(registry_view(*media_streams)[i as int].1 == media_streams@[i as int].1@);
                },
                None => {},
            }
        }
        self.play_send_responses(out, &meta, Ghost(meta_model));
        match found {
            Some(i) => {
                let mut entry = media_streams.remove(i);
                entry.1.clients.push(RtmpClient::new(self.conn_id));
                media_streams.insert(i, entry);
                proof {
                    assert(registry_view(*media_streams) =~= registry_after_play(
                        *old(media_streams),
                        stream_name@,
                        RtmpClient { id: self.conn_id, paused: false },
                    ));
                }
            },
            None => {
                let mut entry = RtmpMediaStream::default();
                entry.clients.push(RtmpClient::new(self.conn_id));
                media_streams.push((clone_string(&stream_name), entry));
                proof {
                    assert(seq![RtmpClient { id: self.conn_id, paused: false }]
                        =~= Seq::<RtmpClient>::empty().push(
                        RtmpClient { id: self.conn_id, paused: false },
                    ));
                    assert(registry_view(*media_streams) =~= registry_after_play(
                        *old(media_streams),
                        stream_name@,
                        RtmpClient { id: self.conn_id, paused: false },
                    ));
                }
            },
        }
        self.stream_name = stream_name;
        Ok(())
    }
}

/// The `pause` arguments: a transaction id, a null, the pause flag, and the
/// pause time.
pub open spec fn pause_args_ok(bytes: Seq<u8>, pos: int) -> bool {
    let r1 = amf_parse_at(bytes, pos);
    &&& r1 matches Some((v1, p1))
    &&& r1->Some_0.0 is Number
    &&& ({
        let r2 = amf_parse_at(bytes, r1->Some_0.1);
        &&& r2 matches Some((v2, p2))
        &&& r2->Some_0.0 is Null
        &&& ({
            let r3 = amf_parse_at(bytes, r2->Some_0.1);
            &&& r3 matches Some((v3, p3))
            &&& r3->Some_0.0 is Boolean
            &&& ({
                let r4 = amf_parse_at(bytes, r3->Some_0.1);
                &&& r4 matches Some((v4, p4))
                &&& r4->Some_0.0 is Number
            })
        })
    })
}

/// The `seek` arguments: a transaction id and a null; a seek offset may
/// follow but plays no part on a live stream.
pub open spec fn seek_args_ok(bytes: Seq<u8>, pos: int) -> bool {
    let r1 = amf_parse_at(bytes, pos);
    &&& r1 matches Some((v1, p1))
    &&& r1->Some_0.0 is Number
    &&& ({
        let r2 = amf_parse_at(bytes, r1->Some_0.1);
        &&& r2 matches Some((v2, p2))
        &&& r2->Some_0.0 is Null
    })
}

/// The pause flag the `pause` arguments carry.
pub open spec fn pause_flag(bytes: Seq<u8>, pos: int) -> bool {
    let r1 = amf_parse_at(bytes, pos);
    let r2 = amf_parse_at(bytes, r1->Some_0.1);
    match amf_parse_at(bytes, r2->Some_0.1) {
        Some((AmfVal::Boolean(b), _)) => b,
        _ => false,
    }
}

/// The registry after a subscriber toggles its pause flag on a stream.
pub open spec fn registry_after_pause(
    reg: Registry,
    name: Seq<char>,
    conn_id: u64,
    pause: bool,
) -> Seq<(Seq<char>, MediaStreamModel)> {
    let rv = registry_view(reg);
    match registry_find(reg, name) {
        Some(i) => rv.update(
            i,
            (
                rv[i].0,
                MediaStreamModel {
                    clients: Seq::new(
                        rv[i].1.clients.len(),
                        |j: int|
                            if rv[i].1.clients[j].id == conn_id {
                                RtmpClient { id: conn_id, paused: pause }
                            } else {
                                rv[i].1.clients[j]
                            },
                    ),
                    metadata: rv[i].1.metadata,
                    published: rv[i].1.published,
                },
            ),
        ),
        None => rv,
    }
}

impl RtmpServer {
    /// Handles `pause`: toggles this connection's pause flag on its stream
    /// and acknowledges with `NetStream.Pause.Notify`.
    #[verifier::rlimit(60)]
    #[verifier::spinoff_prover]
    pub fn handle_pause(
        &self,
        reader: &mut ByteReader,
        media_streams: &mut Registry,
        out: &mut Vec<u8>,
    ) -> (res: Result<(), Error>)
        requires
            old(reader).wf(),
            self.wf(),
            registry_wf(*old(media_streams)),
        ensures
            final(reader).wf(),
            final(reader).data@ == old(reader).data@,
            registry_wf(*final(media_streams)),
            match res {
                Ok(()) => ({
                    let bytes = old(reader).data@;
                    let p = old(reader).pos as int;
                    let c = self.message_stream.max_chunk_size_write as nat;
                    &&& pause_args_ok(bytes, p)
                    &&& registry_view(*final(media_streams)) == registry_after_pause(
                        *old(media_streams),
                        self.stream_name@,
                        self.conn_id,
                        pause_flag(bytes, p),
                    )
                    &&& final(out)@ == old(out)@ + spec_chunk_seq(
                        3,
                        send_header(0, 0, 20, on_status_payload("NetStream.Pause.Notify"@).len()),
                        on_status_payload("NetStream.Pause.Notify"@),
                        c,
                        0,
                    )
                }),
                Err(e) => !pause_args_ok(old(reader).data@, old(reader).pos as int)
                    && final(out)@ == old(out)@ && registry_view(*final(media_streams))
                    == registry_view(*old(media_streams)),
            },
    {
        let ghost bytes = reader.data@;
        let ghost p = reader.pos as int;
        let _transaction_id = match decode_amf_number(reader, true) {
            Ok(x) => x,
            Err(e) => {
                return Err(e);
            },
        };
        proof {
            crate::utils::lemma_be_val_bound(bytes.subrange(p + 1, p + 9));
            assert(crate::utils::pow256(8) == 0x10000000000000000) by {
                reveal_with_fuel(crate::utils::pow256, 9);
            };
        }
        if let Err(e) = decode_amf_null(reader, true) {
            return Err(e);
        }
        let pause = match decode_amf_boolean(reader, true) {
            Ok(b) => b,
            Err(e) => {
                return Err(e);
            },
        };
        let _pause_time = match decode_amf_number(reader, true) {
            Ok(x) => x,
            Err(e) => {
                return Err(e);
            },
        };
        let found = registry_lookup(media_streams, &self.stream_name);
        match found {
            Some(i) => {
                let mut entry = media_streams.remove(i);
                let mut updated: Vec<RtmpClient> = Vec::new();
                let ghost old_clients = entry.1.clients@;
                let mut j: usize = 0;
                while j < entry.1.clients.len()
                    invariant
                        j <= old_clients.len(),
                        entry.1.clients@ == old_clients,
                        updated@.len() == j,
                        forall|t: int|
                            0 <= t < j ==> updated@[t] == (if old_clients[t].id == self.conn_id {
                                RtmpClient { id: self.conn_id, paused: pause }
                            } else {
                                old_clients[t]
                            }),
                    decreases old_clients.len() - j,
                {
                    let c = entry.1.clients[j];
                    if c.id == self.conn_id {
                        updated.push(RtmpClient { id: self.conn_id, paused: pause });
                    } else {
                        updated.push(c);
                    }
                    j = j + 1;
                }
                entry.1.clients = updated;
                media_streams.insert(i, entry);
                proof {
                    let rv = registry_view(*old(media_streams));
                    assert(rv[i as int].1.clients == old_clients);
                    assert(updated@ =~= Seq::new(
                        rv[i as int].1.clients.len(),
                        |t: int|
                            if rv[i as int].1.clients[t].id == self.conn_id {
                                RtmpClient { id: self.conn_id, paused: pause }
                            } else {
                                rv[i as int].1.clients[t]
                            },
                    ));
                    assert(registry_view(*media_streams) =~= registry_after_pause(
                        *old(media_streams),
                        self.stream_name@,
                        self.conn_id,
                        pause,
                    ));
                }
            },
            None => {
                proof {
                    assert(registry_view(*media_streams) =~= registry_after_pause(
                        *old(media_streams),
                        self.stream_name@,
                        self.conn_id,
                        pause,
                    ));
                }
            },
        }
        proof {
            lemma_session_literal_lens();
        }
        let payload = on_status("NetStream.Pause.Notify");
        self.message_stream.send_message(
            out,
            3,
            crate::constant::RTMP_NET_CONNECTION_STREAM_ID,
            0,
            crate::constant::RTMP_COMMAND_MESSAGE_AMF0,
            payload.as_slice(),
        );
        Ok(())
    }

    /// Plans a broadcast of one message to every subscriber of this
    /// connection's stream.
    pub fn broadcast(
        &self,
        media_streams: &Registry,
        timestamp: u32,
        type_id: u8,
        message: &Message,
        fanout: &mut Vec<(u64, OutboundMessage)>,
    ) -> (res: Result<(), Error>)
        ensures
            match res {
                Ok(()) => ({
                    let found = registry_find(*media_streams, self.stream_name@);
                    &&& found is Some
                    &&& fanout_view(final(fanout)@) == fanout_view(old(fanout)@)
                        + broadcast_targets(
                        registry_view(*media_streams)[found->Some_0].1.clients,
                        OutboundModel {
                            chunk_stream_id: 3,
                            message_stream_id: message.header.message_stream_id,
                            timestamp,
                            message_type_id: type_id,
                            payload: message.message@,
                        },
                    )
                }),
                Err(e) => e == Error::MissingMediaStream && registry_find(
                    *media_streams,
                    self.stream_name@,
                ) is None && final(fanout)@ == old(fanout)@,
            },
    {
        let found = registry_lookup(media_streams, &self.stream_name);
        match found {
            Some(i) => {
                media_streams[i].1.broadcast(timestamp, type_id, message, fanout);
                proof {
                    assert(registry_view(*media_streams)[i as int].1
                        == media_streams@[i as int].1@);
                }
                Ok(())
            },
            None => Err(Error::MissingMediaStream),
        }
    }

    /// Handles an audio message: broadcast to every subscriber, carrying the
    /// publisher's timestamp.
    pub fn handle_audio_message(
        &self,
        media_streams: &Registry,
        message: &Message,
        fanout: &mut Vec<(u64, OutboundMessage)>,
    ) -> (res: Result<(), Error>)
        ensures
            match res {
                Ok(()) => ({
                    let found = registry_find(*media_streams, self.stream_name@);
                    &&& found is Some
                    &&& fanout_view(final(fanout)@) == fanout_view(old(fanout)@)
                        + broadcast_targets(
                        registry_view(*media_streams)[found->Some_0].1.clients,
                        OutboundModel {
                            chunk_stream_id: 3,
                            message_stream_id: message.header.message_stream_id,
                            timestamp: message.header.timestamp,
                            message_type_id: 8,
                            payload: message.message@,
                        },
                    )
                }),
                Err(e) => e == Error::MissingMediaStream && registry_find(
                    *media_streams,
                    self.stream_name@,
                ) is None && final(fanout)@ == old(fanout)@,
            },
    {
        self.broadcast(
            media_streams,
            message.header.timestamp,
            crate::constant::RTMP_AUDIO_MESSAGE,
            message,
            fanout,
        )
    }

    /// Handles a video message: broadcast to every subscriber, carrying the
    /// publisher's timestamp.
    pub fn handle_video_message(
        &self,
        media_streams: &Registry,
        message: &Message,
        fanout: &mut Vec<(u64, OutboundMessage)>,
    ) -> (res: Result<(), Error>)
        ensures
            match res {
                Ok(()) => ({
                    let found = registry_find(*media_streams, self.stream_name@);
                    &&& found is Some
                    &&& fanout_view(final(fanout)@) == fanout_view(old(fanout)@)
                        + broadcast_targets(
                        registry_view(*media_streams)[found->Some_0].1.clients,
                        OutboundModel {
                            chunk_stream_id: 3,
                            message_stream_id: message.header.message_stream_id,
                            timestamp: message.header.timestamp,
                            message_type_id: 9,
                            payload: message.message@,
                        },
                    )
                }),
                Err(e) => e == Error::MissingMediaStream && registry_find(
                    *media_streams,
                    self.stream_name@,
                ) is None && final(fanout)@ == old(fanout)@,
            },
    {
        self.broadcast(
            media_streams,
            message.header.timestamp,
            crate::constant::RTMP_VIDEO_MESSAGE,
            message,
            fanout,
        )
    }
}

/// The data-message layout: the `@setDataFrame` wrapper, the `onMetaData`
/// event name, and the metadata ECMA array.
pub open spec fn data_args_ok(bytes: Seq<u8>) -> bool {
    let r1 = amf_parse_at(bytes, 0);
    &&& r1 matches Some((v1, p1))
    &&& r1->Some_0.0 == AmfVal::Str("@setDataFrame"@)
    &&& ({
        let r2 = amf_parse_at(bytes, r1->Some_0.1);
        &&& r2 matches Some((v2, p2))
        &&& r2->Some_0.0 == AmfVal::Str("onMetaData"@)
        &&& ({
            let r3 = amf_parse_at(bytes, r2->Some_0.1);
            &&& r3 matches Some((v3, p3))
            &&& r3->Some_0.0 is EcmaArray
        })
    })
}

/// The metadata that a data message caches: the message from the
/// `onMetaData` event name on, without the `@setDataFrame` wrapper.
pub open spec fn inner_metadata(message: MessageModel) -> MessageModel {
    let k = amf_parse_at(message.payload, 0)->Some_0.1;
    MessageModel {
        header: ChunkMessageHeader {
            timestamp: message.header.timestamp,
            message_length: (message.payload.len() - k) as usize,
            message_type_id: message.header.message_type_id,
            message_stream_id: message.header.message_stream_id,
            timestamp_delta: message.header.timestamp_delta,
        },
        payload: message.payload.skip(k),
    }
}

/// Why a data message failed: a wrapper string other than `@setDataFrame`
/// or `onMetaData`, or a stream this connection never published.
pub open spec fn data_error_cause(payload: Seq<u8>, reg: Registry, name: Seq<char>, e: Error) -> bool {
    let r1 = amf_parse_at(payload, 0);
    &&& ((r1 matches Some((v1, q1)) && v1 is Str && v1->Str_0 != "@setDataFrame"@) ==> e
        == Error::UnknownDataMessage)
    &&& ((r1 matches Some((v1, q1)) && v1 == AmfVal::Str("@setDataFrame"@) && (amf_parse_at(
        payload,
        q1,
    ) matches Some((v2, q2)) && v2 is Str && v2->Str_0 != "onMetaData"@)) ==> e
        == Error::UnknownDataMessage)
    &&& (data_args_ok(payload) && registry_find(reg, name) is None ==> e
        == Error::MissingMediaStream)
}

/// The registry after a stream caches a metadata message.
pub open spec fn registry_after_metadata(
    reg: Registry,
    name: Seq<char>,
    meta: MessageModel,
) -> Seq<(Seq<char>, MediaStreamModel)> {
    let rv = registry_view(reg);
    match registry_find(reg, name) {
        Some(i) => rv.update(
            i,
            (
                rv[i].0,
                MediaStreamModel {
                    clients: rv[i].1.clients,
                    metadata: Some(meta),
                    published: rv[i].1.published,
                },
            ),
        ),
        None => rv,
    }
}

impl RtmpServer {
    /// Handles a data message: checks the `@setDataFrame`/`onMetaData`
    /// wrapper, plans a broadcast of the original bytes at timestamp zero,
    /// and caches the inner message, without the wrapper, as the stream's
    /// metadata.
    #[verifier::rlimit(60)]
    #[verifier::spinoff_prover]
    pub fn handle_data_message(
        &self,
        media_streams: &mut Registry,
        message: Message,
        fanout: &mut Vec<(u64, OutboundMessage)>,
    ) -> (res: Result<(), Error>)
        requires
            registry_wf(*old(media_streams)),
            message.message@.len() <= 0xFFFFFF,
        ensures
            registry_wf(*final(media_streams)),
            match res {
                Ok(()) => ({
                    let found = registry_find(*old(media_streams), self.stream_name@);
                    &&& data_args_ok(message.message@)
                    &&& found is Some
                    &&& fanout_view(final(fanout)@) == fanout_view(old(fanout)@)
                        + broadcast_targets(
                        registry_view(*old(media_streams))[found->Some_0].1.clients,
                        OutboundModel {
                            chunk_stream_id: 3,
                            message_stream_id: message.header.message_stream_id,
                            timestamp: 0,
                            message_type_id: 18,
                            payload: message.message@,
                        },
                    )
                    &&& registry_view(*final(media_streams)) == registry_after_metadata(
                        *old(media_streams),
                        self.stream_name@,
                        inner_metadata(message@),
                    )
                }),
                Err(e) => {
                    &&& (!data_args_ok(message.message@) || registry_find(
                        *old(media_streams),
                        self.stream_name@,
                    ) is None)
                    &&& data_error_cause(
                        message.message@,
                        *old(media_streams),
                        self.stream_name@,
                        e,
                    )
                    &&& final(fanout)@ == old(fanout)@
                    &&& registry_view(*final(media_streams)) == registry_view(
                        *old(media_streams),
                    )
                },
            },
    {
        let mut reader = ByteReader::new(&message.message);
        let first = match decode_amf_string(&mut reader, true) {
            Ok(s) => s,
            Err(e) => {
                return Err(e);
            },
        };
        let inner_start = reader.position();
        proof {
            assert(amf_parse_at(message.message@, 0) == Some(
                (AmfVal::Str(first@), inner_start as int),
            ));
        }
        if first != "@setDataFrame".to_owned() {
            return Err(Error::UnknownDataMessage);
        }
        let second = match decode_amf_string(&mut reader, true) {
            Ok(s) => s,
            Err(e) => {
                return Err(e);
            },
        };
        if second != "onMetaData".to_owned() {
            return Err(Error::UnknownDataMessage);
        }
        let _properties = match decode_amf_ecma_array(&mut reader, true) {
            Ok(v) => v,
            Err(e) => {
                return Err(e);
            },
        };
        let found = registry_lookup(media_streams, &self.stream_name);
        match found {
            Some(i) => {
                media_streams[i].1.broadcast(0, crate::constant::RTMP_DATA_MESSAGE_AMF0, &message, fanout);
                proof {
                    assert(registry_view(*media_streams)[i as int].1
                        == media_streams@[i as int].1@);
                }
                let inner = crate::utils::tail_bytes(&message.message, inner_start);
                let cached = Message {
                    header: ChunkMessageHeader {
                        timestamp: message.header.timestamp,
                        message_length: inner.len(),
                        message_type_id: message.header.message_type_id,
                        message_stream_id: message.header.message_stream_id,
                        timestamp_delta: message.header.timestamp_delta,
                    },
                    message: inner,
                };
                proof {
                    assert(cached@ == inner_metadata(message@));
                }
                let mut entry = media_streams.remove(i);
                entry.1.metadata = Some(cached);
                media_streams.insert(i, entry);
                proof {
                    assert(registry_view(*media_streams) =~= registry_after_metadata(
                        *old(media_streams),
                        self.stream_name@,
                        inner_metadata(message@),
                    ));
                }
                Ok(())
            },
            None => Err(Error::MissingMediaStream),
        }
    }
}

/// True when the list holds the id.
pub fn id_in(list: &Vec<u64>, id: u64) -> (r: bool)
    ensures
        r == list@.contains(id),
{
    let mut i: usize = 0;
    while i < list.len()
        invariant
            i <= list@.len(),
            forall|j: int| 0 <= j < i ==> list@[j] != id,
        decreases list@.len() - i,
    {
        if list[i] == id {
            return true;
        }
        i = i + 1;
    }
    false
}

/// The subscribers that stay after the named handles are dropped.
pub open spec fn remaining_clients(s: Seq<RtmpClient>, offline: Seq<u64>) -> Seq<RtmpClient>
    decreases s,
{
    if s.len() == 0 {
        Seq::empty()
    } else {
        let front = remaining_clients(s.drop_last(), offline);
        if offline.contains(s.last().id) {
            front
        } else {
            front.push(s.last())
        }
    }
}

impl RtmpMediaStream {
    /// Drops the subscribers whose connections failed a write, keeping the
    /// others in order.
    pub fn remove_offline(&mut self, offline: &Vec<u64>)
        ensures
            final(self)@.clients == remaining_clients(old(self)@.clients, offline@),
            final(self)@.metadata == old(self)@.metadata,
            final(self)@.published == old(self)@.published,
    {
        let ghost old_clients = self.clients@;
        let mut kept: Vec<RtmpClient> = Vec::new();
        let mut i: usize = 0;
        proof {
            assert(old_clients.take(0) =~= Seq::<RtmpClient>::empty());
        }
        while i < self.clients.len()
            invariant
                i <= old_clients.len(),
                self.clients@ == old_clients,
                kept@ == remaining_clients(old_clients.take(i as int), offline@),
            decreases old_clients.len() - i,
        {
            let c = self.clients[i];
            if !id_in(offline, c.id) {
                kept.push(c);
            }
            i = i + 1;
            proof {
                assert(old_clients.take(i as int).drop_last() =~= old_clients.take(i as int - 1));
                assert(old_clients.take(i as int).last() == old_clients[i as int - 1]);
            }
        }
        proof {
            assert(old_clients.take(old_clients.len() as int) =~= old_clients);
        }
        self.clients = kept;
    }
}

/// Drops failed subscribers from the named stream's entry, if it exists.
#[verifier::rlimit(60)]
pub fn registry_remove_offline(media_streams: &mut Registry, name: &String, offline: &Vec<u64>)
    requires
        registry_wf(*old(media_streams)),
    ensures
        registry_wf(*final(media_streams)),
        match registry_find(*old(media_streams), name@) {
            Some(i) => registry_view(*final(media_streams)) == registry_view(
                *old(media_streams),
            ).update(
                i,
                (
                    registry_view(*old(media_streams))[i].0,
                    MediaStreamModel {
                        clients: remaining_clients(
                            registry_view(*old(media_streams))[i].1.clients,
                            offline@,
                        ),
                        metadata: registry_view(*old(media_streams))[i].1.metadata,
                        published: registry_view(*old(media_streams))[i].1.published,
                    },
                ),
            ),
            None => registry_view(*final(media_streams)) == registry_view(*old(media_streams)),
        },
{
    let found = registry_lookup(media_streams, name);
    match found {
        Some(i) => {
            let mut entry = media_streams.remove(i);
            entry.1.remove_offline(offline);
            media_streams.insert(i, entry);
            proof {
                let rv = registry_view(*old(media_streams));
                assert(registry_view(*media_streams) =~= rv.update(
                    i as int,
                    (
                        rv[i as int].0,
                        MediaStreamModel {
                            clients: remaining_clients(rv[i as int].1.clients, offline@),
                            metadata: rv[i as int].1.metadata,
                            published: rv[i as int].1.published,
                        },
                    ),
                ));
                assert forall|j: int| 0 <= j < media_streams@.len() implies match (
                #[trigger] media_streams@[j].1@).metadata {
                    Some(m) => m.payload.len() <= 0xFFFFFF,
                    None => true,
                } by {
                    assert(registry_view(*media_streams)[j].1 == media_streams@[j].1@);
                    assert(registry_view(*old(media_streams))[j].1 == old(media_streams)@[j].1@);
                }
            }
        },
        None => {
            proof {
                assert(registry_view(*media_streams) =~= registry_view(*old(media_streams)));
                assert forall|j: int| 0 <= j < media_streams@.len() implies match (
                #[trigger] media_streams@[j].1@).metadata {
                    Some(m) => m.payload.len() <= 0xFFFFFF,
                    None => true,
                } by {
                    assert(registry_view(*media_streams)[j].1 == media_streams@[j].1@);
                    assert(registry_view(*old(media_streams))[j].1 == old(media_streams)@[j].1@);
                }
            }
        },
    }
}

/// A user control payload this side can read: the two-byte event type, and
/// for `SetBufferLength` a stream id and a buffer length.
pub open spec fn user_control_ok(payload: Seq<u8>) -> bool {
    payload.len() >= 2 && (be_val(payload.subrange(0, 2))
        == crate::constant::RTMP_USER_CONTROL_SET_BUFFER_LENGTH as nat ==> payload.len() >= 10)
}

/// The set of command names the session accepts.
pub open spec fn known_command(cmd: Seq<char>) -> bool {
    ||| cmd == "connect"@
    ||| cmd == "deleteStream"@
    ||| cmd == "releaseStream"@
    ||| cmd == "createStream"@
    ||| cmd == "play"@
    ||| cmd == "pause"@
    ||| cmd == "seek"@
    ||| cmd == "getStreamLength"@
    ||| cmd == "publish"@
    ||| cmd == "FCPublish"@
    ||| cmd == "FCUnpublish"@
}


/// The command names are pairwise distinct, so one dispatch branch fits each.
pub proof fn lemma_command_literals_distinct()
    ensures
        "connect"@.len() == 7,
        "deleteStream"@.len() == 12,
        "releaseStream"@.len() == 13,
        "createStream"@.len() == 12,
        "play"@.len() == 4,
        "pause"@.len() == 5,
        "seek"@.len() == 4,
        "getStreamLength"@.len() == 15,
        "publish"@.len() == 7,
        "FCPublish"@.len() == 9,
        "FCUnpublish"@.len() == 11,
        "createStream"@ != "deleteStream"@,
        "seek"@ != "play"@,
        "publish"@ != "connect"@,
{
    reveal_strlit("connect");
    reveal_strlit("deleteStream");
    reveal_strlit("releaseStream");
    reveal_strlit("createStream");
    reveal_strlit("play");
    reveal_strlit("pause");
    reveal_strlit("seek");
    reveal_strlit("getStreamLength");
    reveal_strlit("publish");
    reveal_strlit("FCPublish");
    reveal_strlit("FCUnpublish");
    assert("createStream"@[0] == 'c' && "deleteStream"@[0] == 'd');
    assert("seek"@[0] == 's' && "play"@[0] == 'p');
    assert("publish"@[0] == 'p' && "connect"@[0] == 'c');
}

/// The first value of a command payload, when it is a string.
pub open spec fn first_command(bytes: Seq<u8>) -> Seq<char> {
    match amf_parse_at(bytes, 0) {
        Some((AmfVal::Str(s), p1)) => s,
        _ => Seq::empty(),
    }
}

/// A command message the session accepts: a known string command whose
/// arguments parse as that command demands.
pub open spec fn command_args_ok(bytes: Seq<u8>) -> bool {
    let r0 = amf_parse_at(bytes, 0);
    &&& r0 matches Some((v, p1))
    &&& r0->Some_0.0 is Str
    &&& known_command(r0->Some_0.0->Str_0)
    &&& ({
        let cmd = r0->Some_0.0->Str_0;
        let p1 = r0->Some_0.1;
        if cmd == "connect"@ {
            connect_args_ok(bytes, p1)
        } else if cmd == "deleteStream"@ {
            true
        } else if cmd == "releaseStream"@ {
            tx_null_string_args_ok(bytes, p1)
        } else if cmd == "createStream"@ {
            create_stream_args_ok(bytes, p1)
        } else if cmd == "play"@ {
            play_args_ok(bytes, p1)
        } else if cmd == "pause"@ {
            pause_args_ok(bytes, p1)
        } else if cmd == "seek"@ {
            seek_args_ok(bytes, p1)
        } else if cmd == "getStreamLength"@ {
            tx_null_string_args_ok(bytes, p1)
        } else if cmd == "publish"@ {
            publish_args_ok(bytes, p1)
        } else {
            true
        }
    })
}

/// Why a command message failed: a non-string first value, an unknown name,
/// or arguments the named command rejects.
pub open spec fn command_error_cause(bytes: Seq<u8>, e: Error) -> bool {
    let r0 = amf_parse_at(bytes, 0);
    if !(r0 matches Some((v, p1)) && v is Str) {
        e == Error::NonStringCommand
    } else if !known_command(r0->Some_0.0->Str_0) {
        e matches Error::UnknownCommandMessage(c) && c@ == r0->Some_0.0->Str_0
    } else {
        !command_args_ok(bytes)
    }
}

/// What one accepted command does: the reply bytes owed on this connection,
/// the registry transformation, and the role change, case by case on the
/// command name.
pub open spec fn command_effect(
    pre: RtmpServer,
    post: RtmpServer,
    pre_reg: Registry,
    post_reg: Registry,
    pre_out: Seq<u8>,
    post_out: Seq<u8>,
    bytes: Seq<u8>,
    msid: u32,
    done: bool,
) -> bool {
    let r0 = amf_parse_at(bytes, 0);
    let cmd = r0->Some_0.0->Str_0;
    let p1 = r0->Some_0.1;
    let c = pre.message_stream.max_chunk_size_write as nat;
    &&& post.conn_id == pre.conn_id
    &&& (done <==> cmd == "deleteStream"@)
    &&& if cmd == "connect"@ {
        &&& post_out == pre_out + connect_response_bytes(c)
        &&& registry_view(post_reg) == registry_view(pre_reg)
        &&& post.message_stream@ == pre.message_stream@
        &&& post.stream_name@ == pre.stream_name@
    } else if cmd == "deleteStream"@ {
        &&& post_out == pre_out
        &&& (match registry_find(pre_reg, pre.stream_name@) {
            Some(i) => registry_view(post_reg) == registry_view(pre_reg).subrange(0, i)
                + registry_view(pre_reg).subrange(i + 1, registry_view(pre_reg).len() as int),
            None => registry_view(post_reg) == registry_view(pre_reg),
        })
        &&& post.message_stream@ == pre.message_stream@
        &&& post.stream_name@ == pre.stream_name@
    } else if cmd == "releaseStream"@ || cmd == "getStreamLength"@ || cmd == "FCPublish"@ || cmd
        == "FCUnpublish"@ {
        &&& post_out == pre_out
        &&& registry_view(post_reg) == registry_view(pre_reg)
        &&& post.message_stream@ == pre.message_stream@
        &&& post.stream_name@ == pre.stream_name@
    } else if cmd == "createStream"@ {
        &&& post_out == pre_out + create_stream_response_bytes(
            c,
            create_stream_tx(bytes, p1),
            msid,
        )
        &&& registry_view(post_reg) == registry_view(pre_reg)
        &&& post.message_stream@ == pre.message_stream@
        &&& post.stream_name@ == pre.stream_name@
    } else if cmd == "play"@ {
        let name = third_arg_str(bytes, p1);
        &&& post_out == pre_out + play_response_bytes(c, cached_metadata(pre_reg, name))
        &&& registry_view(post_reg) == registry_after_play(
            pre_reg,
            name,
            RtmpClient { id: pre.conn_id, paused: false },
        )
        &&& post.message_stream@ == (StreamModel {
            max_chunk_size_write: 0x7FFFFFFF,
            ..pre.message_stream@
        })
        &&& post.stream_name@ == name
    } else if cmd == "pause"@ {
        &&& post_out == pre_out + spec_chunk_seq(
            3,
            send_header(0, 0, 20, on_status_payload("NetStream.Pause.Notify"@).len()),
            on_status_payload("NetStream.Pause.Notify"@),
            c,
            0,
        )
        &&& registry_view(post_reg) == registry_after_pause(
            pre_reg,
            pre.stream_name@,
            pre.conn_id,
            pause_flag(bytes, p1),
        )
        &&& post.message_stream@ == pre.message_stream@
        &&& post.stream_name@ == pre.stream_name@
    } else if cmd == "seek"@ {
        &&& post_out == pre_out + spec_chunk_seq(
            3,
            send_header(0, 0, 20, on_status_error_payload("NetStream.Seek.Notify"@).len()),
            on_status_error_payload("NetStream.Seek.Notify"@),
            c,
            0,
        )
        &&& registry_view(post_reg) == registry_view(pre_reg)
        &&& post.message_stream@ == pre.message_stream@
        &&& post.stream_name@ == pre.stream_name@
    } else {
        let name = third_arg_str(bytes, p1);
        &&& post.message_stream@ == pre.message_stream@
        &&& if publish_granted(pre_reg, name) {
            &&& registry_view(post_reg) == registry_after_publish(pre_reg, name)
            &&& post.stream_name@ == name
            &&& post_out == pre_out + spec_chunk_seq(
                3,
                send_header(0, 0, 20, on_status_payload("NetStream.Publish.Start"@).len()),
                on_status_payload("NetStream.Publish.Start"@),
                c,
                0,
            )
        } else {
            &&& registry_view(post_reg) == registry_view(pre_reg)
            &&& post.stream_name@ == pre.stream_name@
            &&& post_out == pre_out + spec_chunk_seq(
                3,
                send_header(0, 0, 20, on_status_error_payload("NetStream.Publish.Denied"@).len()),
                on_status_error_payload("NetStream.Publish.Denied"@),
                c,
                0,
            )
        }
    }
}

impl RtmpServer {
    /// Dispatches one AMF-0 command message.  The returned flag says whether
    /// the command was `deleteStream`, after which the session ends.
    #[verifier::rlimit(60)]
    #[verifier::spinoff_prover]
    pub fn handle_command_message(
        &mut self,
        media_streams: &mut Registry,
        message: &Message,
        out: &mut Vec<u8>,
    ) -> (res: Result<bool, Error>)
        requires
            old(self).wf(),
            registry_wf(*old(media_streams)),
        ensures
            final(self).wf(),
            registry_wf(*final(media_streams)),
            final(self).conn_id == old(self).conn_id,
            res is Ok <==> command_args_ok(message.message@),
            match res {
                Ok(done) => command_effect(
                    *old(self),
                    *final(self),
                    *old(media_streams),
                    *final(media_streams),
                    old(out)@,
                    final(out)@,
                    message.message@,
                    message.header.message_stream_id,
                    done,
                ),
                Err(e) => {
                    &&& command_error_cause(message.message@, e)
                    &&& final(out)@ == old(out)@
                    &&& registry_view(*final(media_streams)) == registry_view(
                        *old(media_streams),
                    )
                    &&& final(self).message_stream@ == old(self).message_stream@
                    &&& final(self).stream_name@ == old(self).stream_name@
                },
            },
    {
        let mut reader = ByteReader::new(&message.message);
        let first = match decode_amf_message(&mut reader) {
            Ok(v) => v,
            Err(e) => {
                return Err(Error::NonStringCommand);
            },
        };
        let cmd = match first {
            AmfObject::String(s) => s,
            _ => {
                return Err(Error::NonStringCommand);
            },
        };
        proof {
            lemma_command_literals_distinct();
        }
        if cmd == "connect".to_owned() {
            self.handle_connect(&mut reader, out)?;
            Ok(false)
        } else if cmd == "deleteStream".to_owned() {
            self.handle_delete_stream(media_streams)?;
            Ok(true)
        } else if cmd == "releaseStream".to_owned() {
            self.handle_release_stream(&mut reader)?;
            Ok(false)
        } else if cmd == "createStream".to_owned() {
            self.handle_create_stream(&mut reader, message.header, out)?;
            Ok(false)
        } else if cmd == "play".to_owned() {
            self.handle_play(&mut reader, media_streams, out)?;
            Ok(false)
        } else if cmd == "pause".to_owned() {
            self.handle_pause(&mut reader, media_streams, out)?;
            Ok(false)
        } else if cmd == "seek".to_owned() {
            self.handle_seek(&mut reader, out)?;
            Ok(false)
        } else if cmd == "getStreamLength".to_owned() {
            self.handle_get_stream_length(&mut reader)?;
            Ok(false)
        } else if cmd == "publish".to_owned() {
            self.handle_publish(&mut reader, media_streams, out)?;
            Ok(false)
        } else if cmd == "FCPublish".to_owned() || cmd == "FCUnpublish".to_owned() {
            Ok(false)
        } else {
            Err(Error::UnknownCommandMessage(cmd))
        }
    }

    /// The message type ids the session acts on.
    pub open spec fn known_message_type(tid: u8) -> bool {
        tid == 1 || tid == 2 || tid == 3 || tid == 4 || tid == 5 || tid == 6 || tid == 8 || tid
            == 9 || tid == 18 || tid == 20
    }

    /// Handles one complete message: control messages act on this
    /// connection's chunk state, command messages drive the session state
    /// machine, and data, audio and video messages are planned for delivery
    /// to every subscriber.  The returned flag ends the session.
    pub fn handle_message(
        &mut self,
        media_streams: &mut Registry,
        message: Message,
        out: &mut Vec<u8>,
        fanout: &mut Vec<(u64, OutboundMessage)>,
    ) -> (res: Result<bool, Error>)
        requires
            old(self).wf(),
            registry_wf(*old(media_streams)),
        ensures
            final(self).wf(),
            registry_wf(*final(media_streams)),
            final(self).conn_id == old(self).conn_id,
            ({
                let tid = message.header.message_type_id;
                let payload = message.message@;
                let len_ok = payload.len() == message.header.message_length
                    && message.header.message_length <= 0xFFFFFF;
                match res {
                    Ok(done) => {
                        &&& len_ok
                        &&& Self::known_message_type(tid)
                        &&& (done <==> (tid == 20 && first_command(payload) == "deleteStream"@))
                        &&& (tid != 20 && tid != 18 && tid != 8 && tid != 9 ==> final(out)@ == old(
                            out,
                        )@ && final(fanout)@ == old(fanout)@ && registry_view(
                            *final(media_streams),
                        ) == registry_view(*old(media_streams)) && final(self).stream_name@ == old(
                            self,
                        ).stream_name@)
                        &&& (tid == 1 ==> payload.len() == 4 && be_val(payload) < 0x80000000
                            && final(self).message_stream@ == (StreamModel {
                            max_chunk_size_read: be_val(payload),
                            ..old(self).message_stream@
                        }))
                        &&& (tid == 2 ==> payload.len() >= 4 && final(self).message_stream@ == (
                        StreamModel {
                            channels: old(self).message_stream@.channels.remove(
                                be_val(payload.subrange(0, 4)) as u32,
                            ),
                            ..old(self).message_stream@
                        }))
                        &&& (tid == 3 ==> payload.len() >= 4 && final(self).message_stream@ == old(
                            self,
                        ).message_stream@)
                        &&& (tid == 4 ==> user_control_ok(payload) && final(self).message_stream@
                            == old(self).message_stream@)
                        &&& (tid == 5 ==> payload.len() == 4 && final(self).message_stream@ == old(
                            self,
                        ).message_stream@)
                        &&& (tid == 6 ==> payload.len() == 5 && final(self).message_stream@ == old(
                            self,
                        ).message_stream@)
                        &&& (tid == 8 || tid == 9 ==> ({
                            let found = registry_find(*old(media_streams), old(self).stream_name@);
                            &&& found is Some
                            &&& fanout_view(final(fanout)@) == fanout_view(old(fanout)@)
                                + broadcast_targets(
                                registry_view(*old(media_streams))[found->Some_0].1.clients,
                                OutboundModel {
                                    chunk_stream_id: 3,
                                    message_stream_id: message.header.message_stream_id,
                                    timestamp: message.header.timestamp,
                                    message_type_id: tid,
                                    payload,
                                },
                            )
                            &&& registry_view(*final(media_streams)) == registry_view(
                                *old(media_streams),
                            )
                            &&& final(out)@ == old(out)@
                            &&& final(self).message_stream@ == old(self).message_stream@
                            &&& final(self).stream_name@ == old(self).stream_name@
                        }))
                        &&& (tid == 18 ==> ({
                            let found = registry_find(*old(media_streams), old(self).stream_name@);
                            &&& data_args_ok(payload)
                            &&& found is Some
                            &&& fanout_view(final(fanout)@) == fanout_view(old(fanout)@)
                                + broadcast_targets(
                                registry_view(*old(media_streams))[found->Some_0].1.clients,
                                OutboundModel {
                                    chunk_stream_id: 3,
                                    message_stream_id: message.header.message_stream_id,
                                    timestamp: 0,
                                    message_type_id: 18,
                                    payload,
                                },
                            )
                            &&& registry_view(*final(media_streams)) == registry_after_metadata(
                                *old(media_streams),
                                old(self).stream_name@,
                                inner_metadata(message@),
                            )
                            &&& final(out)@ == old(out)@
                            &&& final(self).message_stream@ == old(self).message_stream@
                            &&& final(self).stream_name@ == old(self).stream_name@
                        }))
                        &&& (tid == 20 ==> command_args_ok(payload) && command_effect(
                            *old(self),
                            *final(self),
                            *old(media_streams),
                            *final(media_streams),
                            old(out)@,
                            final(out)@,
                            payload,
                            message.header.message_stream_id,
                            done,
                        ) && final(fanout)@ == old(fanout)@)
                    },
                    Err(e) => {
                        &&& final(out)@ == old(out)@
                        &&& final(fanout)@ == old(fanout)@
                        &&& registry_view(*final(media_streams)) == registry_view(
                            *old(media_streams),
                        )
                        &&& final(self).message_stream@ == old(self).message_stream@
                        &&& final(self).stream_name@ == old(self).stream_name@
                        &&& (!len_ok ==> e == Error::InconsistentMessageLength)
                        &&& (len_ok ==> {
                            &&& (tid == 15 || tid == 17 ==> e == Error::Amf3NotSupported)
                            &&& (!Self::known_message_type(tid) && tid != 15 && tid != 17 ==> e
                                == Error::UnknownMessageTypeId(tid))
                            &&& (tid == 1 ==> e == Error::InconsistentMessageLength && (
                            payload.len() != 4 || be_val(payload) >= 0x80000000))
                            &&& (tid == 2 ==> e == Error::Io && payload.len() < 4)
                            &&& (tid == 3 ==> e == Error::Io && payload.len() < 4)
                            &&& (tid == 4 ==> e == Error::Io && !user_control_ok(payload))
                            &&& (tid == 5 ==> e == Error::InconsistentMessageLength
                                && payload.len() != 4)
                            &&& (tid == 6 ==> e == Error::InconsistentMessageLength
                                && payload.len() != 5)
                            &&& (tid == 8 || tid == 9 ==> e == Error::MissingMediaStream
                                && registry_find(*old(media_streams), old(self).stream_name@)
                                is None)
                            &&& (tid == 18 ==> (!data_args_ok(payload) || registry_find(
                                *old(media_streams),
                                old(self).stream_name@,
                            ) is None) && data_error_cause(
                                payload,
                                *old(media_streams),
                                old(self).stream_name@,
                                e,
                            ))
                            &&& (tid == 20 ==> command_error_cause(payload, e))
                        })
                    },
                }
            }),
    {
        if message.message.len() != message.header.message_length
            || message.header.message_length > 0xFFFFFF {
            return Err(Error::InconsistentMessageLength);
        }
        let type_id = message.header.message_type_id;
        if type_id == crate::constant::RTMP_COMMAND_MESSAGE_AMF0 {
            let done = self.handle_command_message(media_streams, &message, out)?;
            Ok(done)
        } else if type_id == crate::constant::RTMP_DATA_MESSAGE_AMF0 {
            self.handle_data_message(media_streams, message, fanout)?;
            Ok(false)
        } else if type_id == crate::constant::RTMP_COMMAND_MESSAGE_AMF3 || type_id
            == crate::constant::RTMP_DATA_MESSAGE_AMF3 {
            Err(Error::Amf3NotSupported)
        } else if type_id == crate::constant::RTMP_SET_CHUNK_SIZE {
            self.handle_set_chunk_size(&message)?;
            Ok(false)
        } else if type_id == crate::constant::RTMP_ABORT_MESSAGE {
            self.handle_abort_message(&message)?;
            Ok(false)
        } else if type_id == crate::constant::RTMP_WINDOW_ACK_SIZE {
            self.handle_window_ack_size(&message)?;
            Ok(false)
        } else if type_id == crate::constant::RTMP_SET_PEER_BANDWIDTH {
            self.handle_set_peer_bandwidth(&message)?;
            Ok(false)
        } else if type_id == crate::constant::RTMP_USER_CONTROL_MESSAGE {
            self.handle_user_control_message(&message)?;
            Ok(false)
        } else if type_id == crate::constant::RTMP_AUDIO_MESSAGE {
            self.handle_audio_message(media_streams, &message, fanout)?;
            Ok(false)
        } else if type_id == crate::constant::RTMP_VIDEO_MESSAGE {
            self.handle_video_message(media_streams, &message, fanout)?;
            Ok(false)
        } else if type_id == crate::constant::RTMP_ACKNOWLEDGEMENT {
            let mut cursor = ByteReader::new(&message.message);
            let _ack = read_u32(&mut cursor)?;
            Ok(false)
        } else {
            Err(Error::UnknownMessageTypeId(type_id))
        }
    }
}

impl RtmpServer {
    /// Handles `seek`: a live stream cannot seek, so the reply is an
    /// error-level `NetStream.Seek.Notify`.
    pub fn handle_seek(&self, reader: &mut ByteReader, out: &mut Vec<u8>) -> (res: Result<
        (),
        Error,
    >)
        requires
            old(reader).wf(),
            self.wf(),
        ensures
            final(reader).wf(),
            final(reader).data@ == old(reader).data@,
            res is Ok <==> seek_args_ok(old(reader).data@, old(reader).pos as int),
            match res {
                Ok(()) => ({
                    let c = self.message_stream.max_chunk_size_write as nat;
                    final(out)@ == old(out)@ + spec_chunk_seq(
                        3,
                        send_header(0, 0, 20, on_status_error_payload("NetStream.Seek.Notify"@).len()),
                        on_status_error_payload("NetStream.Seek.Notify"@),
                        c,
                        0,
                    )
                }),
                Err(e) => final(out)@ == old(out)@,
            },
    {
        let ghost bytes = reader.data@;
        let ghost p = reader.pos as int;
        let _transaction_id = match decode_amf_number(reader, true) {
            Ok(x) => x,
            Err(e) => {
                return Err(e);
            },
        };
        proof {
            crate::utils::lemma_be_val_bound(bytes.subrange(p + 1, p + 9));
            assert(crate::utils::pow256(8) == 0x10000000000000000) by {
                reveal_with_fuel(crate::utils::pow256, 9);
            };
        }
        if let Err(e) = decode_amf_null(reader, true) {
            return Err(e);
        }
        // the seek offset, when present, plays no part on a live stream
        let _offset = decode_amf_message(reader);
        proof {
            lemma_session_literal_lens();
        }
        let payload = on_status_error("NetStream.Seek.Notify");
        self.message_stream.send_message(
            out,
            3,
            crate::constant::RTMP_NET_CONNECTION_STREAM_ID,
            0,
            crate::constant::RTMP_COMMAND_MESSAGE_AMF0,
            payload.as_slice(),
        );
        Ok(())
    }
}

} // verus!
