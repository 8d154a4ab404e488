//! RTMP chunk-stream framing: basic and message headers, per-chunk-stream
//! reassembly state, chunked writing, and the handshake checks.

use crate::error::Error;
use crate::utils::{
    aggregate, be_bytes, be_val, le_bytes, le_val, pow256, push_slice_range, push_u24_be,
    push_u32_be, push_u32_le, read_buffer, read_numeric, read_u32, read_u8, ByteReader,
};
use std::collections::HashMap;
use vstd::prelude::*;

verus! {

broadcast use vstd::std_specs::hash::group_hash_axioms;

/// The first one to three bytes of every chunk: the format and the
/// chunk-stream id, which ranges over 2..=65599.
pub struct ChunkBasicHeader {
    pub chunk_stream_id: u32,
    pub chunk_type: u8,
}

impl ChunkBasicHeader {
    /// An id the one-, two- or three-byte forms can carry, and a format that
    /// fits two bits.
    pub open spec fn wf(self) -> bool {
        2 <= self.chunk_stream_id <= 65599 && self.chunk_type <= 3
    }
}

/// The expanded per-message header.  `timestamp` is the absolute stream time
/// of the message the chunk belongs to; `timestamp_delta` is the delta last
/// used to advance it.
#[derive(Clone, Copy, Debug, PartialEq, Eq, Structural)]
pub struct ChunkMessageHeader {
    pub timestamp: u32,
    pub message_length: usize,
    pub message_type_id: u8,
    pub message_stream_id: u32,
    pub timestamp_delta: u32,
}

impl Default for ChunkMessageHeader {
    /// The all-zero header that a chunk stream starts from.
    fn default() -> (r: Self)
        ensures
            r == (ChunkMessageHeader {
                timestamp: 0,
                message_length: 0,
                message_type_id: 0,
                message_stream_id: 0,
                timestamp_delta: 0,
            }),
    {
        ChunkMessageHeader {
            timestamp: 0,
            message_length: 0,
            message_type_id: 0,
            message_stream_id: 0,
            timestamp_delta: 0,
        }
    }
}

/// One RTMP message: its header and its reassembled payload.
#[derive(Debug)]
pub struct Message {
    pub header: ChunkMessageHeader,
    pub message: Vec<u8>,
}

/// The mathematical value of a message.
pub struct MessageModel {
    pub header: ChunkMessageHeader,
    pub payload: Seq<u8>,
}

impl View for Message {
    type V = MessageModel;

    open spec fn view(&self) -> MessageModel {
        MessageModel { header: self.header, payload: self.message@ }
    }
}

impl Message {
    pub fn new(header: ChunkMessageHeader) -> (r: Self)
        ensures
            r.header == header,
            r.message@ == Seq::<u8>::empty(),
    {
        Message { header, message: Vec::new() }
    }
}

/// The mathematical state of one side of a chunk stream: the partial message
/// per chunk-stream id, the last header retained per id, and the two chunk
/// size bounds.
pub struct StreamModel {
    pub channels: Map<u32, MessageModel>,
    pub prev: Map<u32, (ChunkMessageHeader, u8)>,
    pub max_chunk_size_read: nat,
    pub max_chunk_size_write: nat,
}

/// The per-connection chunk codec state: reassembly buffers keyed by
/// chunk-stream id and the retained headers that expand compressed chunks.
pub struct RtmpMessageStreamImpl {
    pub channels: HashMap<u32, Message>,
    pub prev_message_header: HashMap<u32, (ChunkMessageHeader, u8)>,
    pub max_chunk_size_read: usize,
    pub max_chunk_size_write: usize,
}

impl View for RtmpMessageStreamImpl {
    type V = StreamModel;

    open spec fn view(&self) -> StreamModel {
        StreamModel {
            channels: Map::new(
                |k: u32| self.channels@.contains_key(k),
                |k: u32| self.channels@[k]@,
            ),
            prev: self.prev_message_header@,
            max_chunk_size_read: self.max_chunk_size_read as nat,
            max_chunk_size_write: self.max_chunk_size_write as nat,
        }
    }
}

impl RtmpMessageStreamImpl {
    /// Every partial message still misses bytes: complete ones are emitted at
    /// once, and each announced length fits the three-byte field.
    pub open spec fn wf(self) -> bool {
        &&& forall|k: u32|
            self@.channels.contains_key(k) ==> (#[trigger] self@.channels[k]).payload.len()
                < self@.channels[k].header.message_length
                && self@.channels[k].header.message_length <= 0xFFFFFF
        &&& forall|k: u32|
            self@.prev.contains_key(k) ==> (#[trigger] self@.prev[k]).0.message_length <= 0xFFFFFF
    }

    pub fn new() -> (r: Self)
        ensures
            r@.channels == Map::<u32, MessageModel>::empty(),
            r@.prev == Map::<u32, (ChunkMessageHeader, u8)>::empty(),
            r.max_chunk_size_read == 128,
            r.max_chunk_size_write == 128,
            r.wf(),
    {
        let r = RtmpMessageStreamImpl {
            channels: HashMap::new(),
            prev_message_header: HashMap::new(),
            max_chunk_size_read: 128,
            max_chunk_size_write: 128,
        };
        proof {
            assert(r@.channels =~= Map::<u32, MessageModel>::empty());
        }
        r
    }
}

/// A 32-bit timestamp advance: addition on the 32-bit rolling clock.
pub open spec fn add32(a: u32, b: u32) -> u32 {
    ((a + b) % 0x100000000) as u32
}

/// Adds two timestamps on the 32-bit rolling clock.
pub fn add_timestamps(a: u32, b: u32) -> (r: u32)
    ensures
        r == add32(a, b),
{
    let sum: u64 = (a as u64) + (b as u64);
    (sum % 0x100000000) as u32
}

/// Parses a basic header: the two-bit format and the one-, two- or
/// three-byte chunk-stream id, the long form little-endian.
pub open spec fn spec_basic_header_at(bytes: Seq<u8>, pos: int) -> Option<(ChunkBasicHeader, int)> {
    if pos < 0 || pos + 1 > bytes.len() {
        None
    } else {
        let fmt = bytes[pos] / 64;
        let cs = bytes[pos] % 64;
        if cs == 0 {
            if pos + 2 <= bytes.len() {
                Some(
                    (
                        ChunkBasicHeader {
                            chunk_stream_id: (64 + bytes[pos + 1]) as u32,
                            chunk_type: fmt,
                        },
                        pos + 2,
                    ),
                )
            } else {
                None
            }
        } else if cs == 1 {
            if pos + 3 <= bytes.len() {
                Some(
                    (
                        ChunkBasicHeader {
                            chunk_stream_id: (64 + bytes[pos + 1] + 256 * bytes[pos + 2]) as u32,
                            chunk_type: fmt,
                        },
                        pos + 3,
                    ),
                )
            } else {
                None
            }
        } else {
            Some((ChunkBasicHeader { chunk_stream_id: cs as u32, chunk_type: fmt }, pos + 1))
        }
    }
}

/// The canonical encoding of a basic header, in the shortest form that holds
/// its id.
pub open spec fn spec_basic_header_bytes(h: ChunkBasicHeader) -> Seq<u8> {
    if h.chunk_stream_id < 64 {
        seq![(h.chunk_type * 64 + h.chunk_stream_id) as u8]
    } else if h.chunk_stream_id < 320 {
        seq![(h.chunk_type * 64) as u8, (h.chunk_stream_id - 64) as u8]
    } else {
        seq![
            (h.chunk_type * 64 + 1) as u8,
            ((h.chunk_stream_id - 64) % 256) as u8,
            ((h.chunk_stream_id - 64) / 256) as u8,
        ]
    }
}

/// Reading back the canonical encoding of a basic header yields the header:
/// the boundary ids 2, 63, 64, 319, 320 and 65599 all take their shortest
/// form and survive the trip.
pub proof fn lemma_basic_header_round_trip(bytes: Seq<u8>, pos: int, h: ChunkBasicHeader)
    requires
        h.wf(),
        0 <= pos,
        pos + spec_basic_header_bytes(h).len() <= bytes.len(),
        bytes.subrange(pos, pos + spec_basic_header_bytes(h).len() as int)
            == spec_basic_header_bytes(h),
    ensures
        spec_basic_header_at(bytes, pos) == Some((h, pos + spec_basic_header_bytes(h).len() as int)),
{
    let enc = spec_basic_header_bytes(h);
    assert(bytes[pos] == enc[0]);
    if h.chunk_stream_id < 64 {
        assert((h.chunk_type * 64 + h.chunk_stream_id) as u8 / 64 == h.chunk_type) by (
        nonlinear_arith)
            requires
                h.chunk_type <= 3,
                2 <= h.chunk_stream_id < 64,
        ;
        assert((h.chunk_type * 64 + h.chunk_stream_id) as u8 % 64 == h.chunk_stream_id) by (
        nonlinear_arith)
            requires
                h.chunk_type <= 3,
                2 <= h.chunk_stream_id < 64,
        ;
    } else if h.chunk_stream_id < 320 {
        assert(bytes[pos + 1] == enc[1]);
        assert((h.chunk_type * 64) as u8 / 64 == h.chunk_type) by (nonlinear_arith)
            requires
                h.chunk_type <= 3,
        ;
        assert((h.chunk_type * 64) as u8 % 64 == 0) by (nonlinear_arith)
            requires
                h.chunk_type <= 3,
        ;
    } else {
        assert(bytes[pos + 1] == enc[1]);
        assert(bytes[pos + 2] == enc[2]);
        let d = h.chunk_stream_id - 64;
        assert((h.chunk_type * 64 + 1) as u8 / 64 == h.chunk_type) by (nonlinear_arith)
            requires
                h.chunk_type <= 3,
        ;
        assert((h.chunk_type * 64 + 1) as u8 % 64 == 1) by (nonlinear_arith)
            requires
                h.chunk_type <= 3,
        ;
        assert(64 + (d % 256) + 256 * (d / 256) == h.chunk_stream_id) by (nonlinear_arith)
            requires
                d == h.chunk_stream_id - 64,
                0 <= d <= 65535,
        ;
    }
}

/// Reads a basic header.
pub fn read_chunk_basic_header(reader: &mut ByteReader) -> (res: Result<ChunkBasicHeader, Error>)
    requires
        old(reader).wf(),
    ensures
        final(reader).wf(),
        final(reader).data@ == old(reader).data@,
        match res {
            Ok(bh) => spec_basic_header_at(old(reader).data@, old(reader).pos as int) == Some(
                (bh, final(reader).pos as int),
            ) && bh.chunk_stream_id <= 65599 && bh.chunk_type <= 3,
            Err(e) => e == Error::Io && spec_basic_header_at(
                old(reader).data@,
                old(reader).pos as int,
            ) is None,
        },
{
    let header = read_u8(reader)?;
    let chunk_type = header / 64;
    let cs = header % 64;
    if cs == 0 {
        let b = read_u8(reader)?;
        Ok(ChunkBasicHeader { chunk_stream_id: 64 + (b as u32), chunk_type })
    } else if cs == 1 {
        let b1 = read_u8(reader)?;
        let b2 = read_u8(reader)?;
        Ok(ChunkBasicHeader { chunk_stream_id: 64 + (b1 as u32) + 256 * (b2 as u32), chunk_type })
    } else {
        Ok(ChunkBasicHeader { chunk_stream_id: cs as u32, chunk_type })
    }
}

/// Writes a basic header in its canonical form.
pub fn send_chunk_basic_header(out: &mut Vec<u8>, header: ChunkBasicHeader)
    requires
        header.wf(),
    ensures
        final(out)@ == old(out)@ + spec_basic_header_bytes(header),
{
    if header.chunk_stream_id < 64 {
        out.push(header.chunk_type * 64 + (header.chunk_stream_id as u8));
    } else if header.chunk_stream_id < 320 {
        out.push(header.chunk_type * 64);
        out.push((header.chunk_stream_id - 64) as u8);
    } else {
        out.push(header.chunk_type * 64 + 1);
        out.push(((header.chunk_stream_id - 64) % 256) as u8);
        out.push(((header.chunk_stream_id - 64) / 256) as u8);
    }
    proof {
        assert(out@ =~= old(out)@ + spec_basic_header_bytes(header));
    }
}
/// The all-zero header a chunk stream starts from.
pub open spec fn zero_header() -> ChunkMessageHeader {
    ChunkMessageHeader {
        timestamp: 0,
        message_length: 0,
        message_type_id: 0,
        message_stream_id: 0,
        timestamp_delta: 0,
    }
}

/// The reference header used to expand compressed chunks on a chunk stream.
pub open spec fn prev_of(m: StreamModel, csid: u32) -> (ChunkMessageHeader, u8) {
    if m.prev.contains_key(csid) {
        m.prev[csid]
    } else {
        (zero_header(), 0)
    }
}

/// The header carried by the fields a format-0/1/2 chunk supplies, the rest
/// inherited from the reference header.
pub open spec fn mk_header(
    prev: (ChunkMessageHeader, u8),
    fmt: u8,
    tsd: u32,
    mlen: nat,
    mtype: u8,
    msid: nat,
) -> ChunkMessageHeader {
    if fmt == 0 {
        ChunkMessageHeader {
            timestamp: tsd,
            timestamp_delta: 0,
            message_length: mlen as usize,
            message_type_id: mtype,
            message_stream_id: msid as u32,
        }
    } else {
        ChunkMessageHeader {
            timestamp: add32(prev.0.timestamp, tsd),
            timestamp_delta: tsd,
            message_length: mlen as usize,
            message_type_id: mtype,
            message_stream_id: msid as u32,
        }
    }
}

/// Parses the message header of a chunk of format `fmt` at `pos`, expanding
/// it against the reference header `prev`.  A format-3 chunk consumes bytes
/// only when a sender included the extended timestamp there, which this side
/// tolerates by looking for the known value.
pub open spec fn spec_message_header_at(
    bytes: Seq<u8>,
    pos: int,
    prev: (ChunkMessageHeader, u8),
    fmt: u8,
) -> Option<(ChunkMessageHeader, int)> {
    if fmt == 3 {
        let delta = if prev.1 == 0 {
            prev.0.timestamp
        } else {
            prev.0.timestamp_delta
        };
        let h = ChunkMessageHeader {
            timestamp: add32(prev.0.timestamp, delta),
            timestamp_delta: delta,
            message_length: prev.0.message_length,
            message_type_id: prev.0.message_type_id,
            message_stream_id: prev.0.message_stream_id,
        };
        if delta >= 0xFFFFFF && 0 <= pos && pos + 4 <= bytes.len() && be_val(
            bytes.subrange(pos, pos + 4),
        ) == delta {
            Some((h, pos + 4))
        } else {
            Some((h, pos))
        }
    } else {
        let fixed: int = if fmt == 0 {
            11
        } else if fmt == 1 {
            7
        } else {
            3
        };
        if pos < 0 || pos + fixed > bytes.len() {
            None
        } else {
            let tsd3 = be_val(bytes.subrange(pos, pos + 3));
            let mlen = if fmt < 2 {
                be_val(bytes.subrange(pos + 3, pos + 6))
            } else {
                prev.0.message_length as nat
            };
            let mtype = if fmt < 2 {
                bytes[pos + 6]
            } else {
                prev.0.message_type_id
            };
            let msid = if fmt == 0 {
                le_val(bytes.subrange(pos + 7, pos + 11))
            } else {
                prev.0.message_stream_id as nat
            };
            if tsd3 == 0xFFFFFF {
                if pos + fixed + 4 <= bytes.len() {
                    let tsd = be_val(bytes.subrange(pos + fixed, pos + fixed + 4));
                    Some((mk_header(prev, fmt, tsd as u32, mlen, mtype, msid), pos + fixed + 4))
                } else {
                    None
                }
            } else {
                Some((mk_header(prev, fmt, tsd3 as u32, mlen, mtype, msid), pos + fixed))
            }
        }
    }
}

impl RtmpMessageStreamImpl {
    /// Reads and expands the message header of one chunk.
    pub fn read_chunk_message_header(
        &self,
        reader: &mut ByteReader,
        basic_header: &ChunkBasicHeader,
    ) -> (res: Result<ChunkMessageHeader, Error>)
        requires
            old(reader).wf(),
            self.wf(),
            basic_header.chunk_type <= 3,
        ensures
            final(reader).wf(),
            final(reader).data@ == old(reader).data@,
            match res {
                Ok(h) => spec_message_header_at(
                    old(reader).data@,
                    old(reader).pos as int,
                    prev_of(self@, basic_header.chunk_stream_id),
                    basic_header.chunk_type,
                ) == Some((h, final(reader).pos as int)) && h.message_length <= 0xFFFFFF,
                Err(e) => e == Error::Io && spec_message_header_at(
                    old(reader).data@,
                    old(reader).pos as int,
                    prev_of(self@, basic_header.chunk_stream_id),
                    basic_header.chunk_type,
                ) is None,
            },
    {
        let (prev_header, prev_chunk_type): (ChunkMessageHeader, u8) = match self
            .prev_message_header
            .get(&basic_header.chunk_stream_id) {
            Some(p) => *p,
            None => (ChunkMessageHeader::default(), 0),
        };
        let fmt = basic_header.chunk_type;
        proof {
            assert((prev_header, prev_chunk_type) == prev_of(
                self@,
                basic_header.chunk_stream_id,
            ));
        }
        if fmt == 3 {
            let delta = if prev_chunk_type == 0 {
                prev_header.timestamp
            } else {
                prev_header.timestamp_delta
            };
            let h = ChunkMessageHeader {
                timestamp: add_timestamps(prev_header.timestamp, delta),
                timestamp_delta: delta,
                message_length: prev_header.message_length,
                message_type_id: prev_header.message_type_id,
                message_stream_id: prev_header.message_stream_id,
            };
            if delta >= 0xFFFFFF && reader.data.len() - reader.pos >= 4 {
                let b0 = reader.data[reader.pos];
                let b1 = reader.data[reader.pos + 1];
                let b2 = reader.data[reader.pos + 2];
                let b3 = reader.data[reader.pos + 3];
                let v = (b0 as u32) * 0x1000000 + (b1 as u32) * 0x10000 + (b2 as u32) * 0x100 + (
                b3 as u32);
                proof {
                    let s = reader.data@.subrange(reader.pos as int, reader.pos + 4);
                    crate::utils::lemma_be_val_4(s);
                }
                if v == delta {
                    reader.pos = reader.pos + 4;
                }
            }
            return Ok(h);
        }
        let ghost p0 = reader.pos as int;
        let tsd3 = read_numeric(reader, 3)?;
        let mut mlen: usize = prev_header.message_length;
        let mut mtype: u8 = prev_header.message_type_id;
        let mut msid: u32 = prev_header.message_stream_id;
        if fmt < 2 {
            let len_field = read_numeric(reader, 3)?;
            proof {
                crate::utils::lemma_be_val_bound(reader.data@.subrange(p0 + 3, p0 + 6));
                assert(crate::utils::pow256(3) == 0x1000000) by {
                    reveal_with_fuel(crate::utils::pow256, 4);
                };
            }
            mlen = len_field as usize;
            mtype = read_u8(reader)?;
        }
        if fmt == 0 {
            let buf = read_buffer(reader, 4)?;
            msid = aggregate(&buf, true);
        }
        let tsd: u32 = if tsd3 == 0xFFFFFF {
            read_u32(reader)?
        } else {
            proof {
                crate::utils::lemma_be_val_bound(reader.data@.subrange(p0, p0 + 3));
                assert(crate::utils::pow256(3) == 0x1000000) by {
                    reveal_with_fuel(crate::utils::pow256, 4);
                };
            }
            tsd3
        };
        let h = if fmt == 0 {
            ChunkMessageHeader {
                timestamp: tsd,
                timestamp_delta: 0,
                message_length: mlen,
                message_type_id: mtype,
                message_stream_id: msid,
            }
        } else {
            ChunkMessageHeader {
                timestamp: add_timestamps(prev_header.timestamp, tsd),
                timestamp_delta: tsd,
                message_length: mlen,
                message_type_id: mtype,
                message_stream_id: msid,
            }
        };
        Ok(h)
    }
}

/// One step of the read side: parses one chunk, appends its payload slice to
/// the chunk stream's partial message, and emits the message when complete.
pub open spec fn spec_read_message(m: StreamModel, bytes: Seq<u8>, pos: int) -> Option<
    (StreamModel, Option<MessageModel>, int),
> {
    match spec_basic_header_at(bytes, pos) {
        None => None,
        Some((bh, p1)) => {
            let csid = bh.chunk_stream_id;
            match spec_message_header_at(bytes, p1, prev_of(m, csid), bh.chunk_type) {
                None => None,
                Some((mh, p2)) => {
                    let is_first = !m.channels.contains_key(csid);
                    let cur = if is_first {
                        MessageModel { header: mh, payload: Seq::empty() }
                    } else {
                        m.channels[csid]
                    };
                    let remaining = cur.header.message_length - cur.payload.len();
                    let size = if m.max_chunk_size_read <= remaining {
                        m.max_chunk_size_read as int
                    } else {
                        remaining
                    };
                    if p2 + size <= bytes.len() {
                        let payload = cur.payload + bytes.subrange(p2, p2 + size);
                        let prev2 = if is_first {
                            m.prev.insert(csid, (mh, bh.chunk_type))
                        } else {
                            m.prev
                        };
                        if payload.len() == cur.header.message_length {
                            Some(
                                (
                                    StreamModel {
                                        channels: m.channels.remove(csid),
                                        prev: prev2,
                                        max_chunk_size_read: m.max_chunk_size_read,
                                        max_chunk_size_write: m.max_chunk_size_write,
                                    },
                                    Some(MessageModel { header: cur.header, payload }),
                                    p2 + size,
                                ),
                            )
                        } else {
                            Some(
                                (
                                    StreamModel {
                                        channels: m.channels.insert(
                                            csid,
                                            MessageModel { header: cur.header, payload },
                                        ),
                                        prev: prev2,
                                        max_chunk_size_read: m.max_chunk_size_read,
                                        max_chunk_size_write: m.max_chunk_size_write,
                                    },
                                    None,
                                    p2 + size,
                                ),
                            )
                        }
                    } else {
                        None
                    }
                },
            }
        },
    }
}

impl RtmpMessageStreamImpl {
    /// Reads one chunk and returns the completed message, if this chunk was
    /// its last.  The partial slot is cleared on completion; the reference
    /// header of the chunk stream is retained for compressed chunks.
    pub fn read_message(&mut self, reader: &mut ByteReader) -> (res: Result<Option<Message>, Error>)
        requires
            old(self).wf(),
            old(reader).wf(),
        ensures
            final(self).wf(),
            final(reader).wf(),
            final(reader).data@ == old(reader).data@,
            match res {
                Ok(m) => spec_read_message(
                    old(self)@,
                    old(reader).data@,
                    old(reader).pos as int,
                ) == Some(
                    (
                        final(self)@,
                        match m {
                            Some(msg) => Some(msg@),
                            None => None::<MessageModel>,
                        },
                        final(reader).pos as int,
                    ),
                ),
                Err(e) => e == Error::Io && final(self)@ == old(self)@ && spec_read_message(
                    old(self)@,
                    old(reader).data@,
                    old(reader).pos as int,
                ) is None,
            },
    {
        let basic_header = read_chunk_basic_header(reader)?;
        let message_header = self.read_chunk_message_header(reader, &basic_header)?;
        let csid = basic_header.chunk_stream_id;
        let is_first = !self.channels.contains_key(&csid);
        let remaining: usize = if is_first {
            message_header.message_length
        } else {
            match self.channels.get(&csid) {
                Some(m) => m.header.message_length - m.message.len(),
                None => vstd::pervasive::unreached(),
            }
        };
        let size = if self.max_chunk_size_read <= remaining {
            self.max_chunk_size_read
        } else {
            remaining
        };
        let mut buf = read_buffer(reader, size)?;
        let msg: Message = if is_first {
            let mut msg = Message::new(message_header);
            msg.message = buf;
            msg
        } else {
            let mut msg = match self.channels.remove(&csid) {
                Some(m) => m,
                None => vstd::pervasive::unreached(),
            };
            msg.message.append(&mut buf);
            msg
        };
        let result: Option<Message> = if msg.message.len() == msg.header.message_length {
            proof {
                if !is_first {
                    assert(old(self)@.channels.remove(csid) =~= self@.channels);
                } else {
                    assert(old(self)@.channels.remove(csid) =~= old(self)@.channels);
                    assert(old(self)@.channels =~= self@.channels);
                }
            }
            Some(msg)
        } else {
            self.channels.insert(csid, msg);
            None
        };
        if is_first {
            self.prev_message_header.insert(csid, (message_header, basic_header.chunk_type));
        }
        proof {
            let stepped = spec_read_message(old(self)@, old(reader).data@, old(reader).pos as int);
            assert(stepped is Some);
            let (m2, emitted, endp) = stepped->Some_0;
            assert(self@.channels =~= m2.channels);
            assert(self@.prev =~= m2.prev);
        }
        Ok(result)
    }
}

/// The bytes of a message header of format `fmt` for a message whose
/// format-0 header is `h`.  A format-3 chunk carries the extended timestamp
/// when the message's timestamp needs one, as a conforming sender should.
pub open spec fn spec_message_header_bytes(h: ChunkMessageHeader, fmt: u8) -> Seq<u8> {
    if fmt == 3 {
        if h.timestamp >= 0xFFFFFF {
            be_bytes(h.timestamp as nat, 4)
        } else {
            Seq::empty()
        }
    } else {
        let v = if fmt == 0 {
            h.timestamp
        } else {
            h.timestamp_delta
        };
        let v3: nat = if v >= 0xFFFFFF {
            0xFFFFFF
        } else {
            v as nat
        };
        be_bytes(v3, 3) + (if fmt < 2 {
            be_bytes(h.message_length as nat, 3) + seq![h.message_type_id]
        } else {
            Seq::empty()
        }) + (if fmt == 0 {
            le_bytes(h.message_stream_id as nat, 4)
        } else {
            Seq::empty()
        }) + (if v >= 0xFFFFFF {
            be_bytes(v as nat, 4)
        } else {
            Seq::empty()
        })
    }
}

/// Writes a message header of format `fmt`.
pub fn send_chunk_message_header(out: &mut Vec<u8>, header: ChunkMessageHeader, chunk_type: u8)
    requires
        chunk_type <= 3,
        header.message_length <= 0xFFFFFF,
    ensures
        final(out)@ == old(out)@ + spec_message_header_bytes(header, chunk_type),
{
    if chunk_type == 3 {
        if header.timestamp >= 0xFFFFFF {
            push_u32_be(out, header.timestamp);
        }
        proof {
            assert(out@ =~= old(out)@ + spec_message_header_bytes(header, chunk_type));
        }
        return ;
    }
    let timestamp_or_delta = if chunk_type == 0 {
        header.timestamp
    } else {
        header.timestamp_delta
    };
    let timestamp_or_delta_non_extended = if timestamp_or_delta >= 0xFFFFFF {
        0xFFFFFF
    } else {
        timestamp_or_delta
    };
    push_u24_be(out, timestamp_or_delta_non_extended);
    if chunk_type < 2 {
        push_u24_be(out, header.message_length as u32);
        out.push(header.message_type_id);
    }
    if chunk_type == 0 {
        push_u32_le(out, header.message_stream_id);
    }
    if timestamp_or_delta >= 0xFFFFFF {
        push_u32_be(out, timestamp_or_delta);
    }
    proof {
        assert(out@ =~= old(out)@ + spec_message_header_bytes(header, chunk_type));
    }
}

/// The chunked encoding of the part of `payload` from `ptr` on: a format-0
/// chunk first, format-3 continuations after, each carrying at most `c`
/// payload bytes.
pub open spec fn spec_chunk_seq(
    csid: u32,
    h: ChunkMessageHeader,
    payload: Seq<u8>,
    c: nat,
    ptr: nat,
) -> Seq<u8>
    decreases payload.len() - ptr,
{
    if ptr >= payload.len() || c == 0 {
        Seq::empty()
    } else {
        let size: nat = if c <= payload.len() - ptr {
            c
        } else {
            (payload.len() - ptr) as nat
        };
        let fmt: u8 = if ptr == 0 {
            0
        } else {
            3
        };
        spec_basic_header_bytes(ChunkBasicHeader { chunk_stream_id: csid, chunk_type: fmt })
            + spec_message_header_bytes(h, fmt) + payload.subrange(ptr as int, (ptr + size) as int)
            + spec_chunk_seq(csid, h, payload, c, ptr + size)
    }
}

/// The format-0 header a sent message starts with.
pub open spec fn send_header(
    message_stream_id: u32,
    timestamp: u32,
    message_type_id: u8,
    len: nat,
) -> ChunkMessageHeader {
    ChunkMessageHeader {
        timestamp,
        timestamp_delta: 0,
        message_length: len as usize,
        message_type_id,
        message_stream_id,
    }
}

impl RtmpMessageStreamImpl {
    /// Packs one message into chunks bounded by the write chunk size: a
    /// format-0 chunk, then format-3 continuations.  An empty message sends
    /// nothing.
    pub fn send_message(
        &self,
        out: &mut Vec<u8>,
        chunk_stream_id: u32,
        message_stream_id: u32,
        timestamp: u32,
        message_type_id: u8,
        message: &[u8],
    )
        requires
            2 <= chunk_stream_id <= 65599,
            message@.len() <= 0xFFFFFF,
            self.max_chunk_size_write >= 1,
        ensures
            final(out)@ == old(out)@ + spec_chunk_seq(
                chunk_stream_id,
                send_header(message_stream_id, timestamp, message_type_id, message@.len()),
                message@,
                self.max_chunk_size_write as nat,
                0,
            ),
    {
        let ghost header_g = send_header(
            message_stream_id,
            timestamp,
            message_type_id,
            message@.len(),
        );
        let ghost c = self.max_chunk_size_write as nat;
        let mut ptr: usize = 0;
        while ptr < message.len()
            invariant
                ptr <= message@.len(),
                message@.len() <= 0xFFFFFF,
                2 <= chunk_stream_id <= 65599,
                self.max_chunk_size_write >= 1,
                c == self.max_chunk_size_write as nat,
                header_g == send_header(
                    message_stream_id,
                    timestamp,
                    message_type_id,
                    message@.len(),
                ),
                old(out)@ + spec_chunk_seq(chunk_stream_id, header_g, message@, c, 0) == out@
                    + spec_chunk_seq(chunk_stream_id, header_g, message@, c, ptr as nat),
            decreases message@.len() - ptr,
        {
            let remaining = message.len() - ptr;
            let size = if self.max_chunk_size_write <= remaining {
                self.max_chunk_size_write
            } else {
                remaining
            };
            let chunk_type: u8 = if ptr == 0 {
                0
            } else {
                3
            };
            let ghost out_before = out@;
            send_chunk_basic_header(
                out,
                ChunkBasicHeader { chunk_stream_id, chunk_type },
            );
            let header = ChunkMessageHeader {
                timestamp,
                timestamp_delta: 0,
                message_length: message.len(),
                message_type_id,
                message_stream_id,
            };
            send_chunk_message_header(out, header, chunk_type);
            push_slice_range(out, message, ptr, ptr + size);
            proof {
                assert(header == header_g);
                let bh = spec_basic_header_bytes(
                    ChunkBasicHeader { chunk_stream_id, chunk_type },
                );
                let mh = spec_message_header_bytes(header_g, chunk_type);
                let pl = message@.subrange(ptr as int, ptr + size);
                assert(out@ =~= out_before + (bh + mh + pl));
                assert(spec_chunk_seq(chunk_stream_id, header_g, message@, c, ptr as nat) == bh
                    + mh + pl + spec_chunk_seq(
                    chunk_stream_id,
                    header_g,
                    message@,
                    c,
                    ptr as nat + size as nat,
                ));
                assert(out_before + (bh + mh + pl + spec_chunk_seq(
                    chunk_stream_id,
                    header_g,
                    message@,
                    c,
                    ptr as nat + size as nat,
                )) =~= (out_before + (bh + mh + pl)) + spec_chunk_seq(
                    chunk_stream_id,
                    header_g,
                    message@,
                    c,
                    ptr as nat + size as nat,
                ));
                assert(out_before + spec_chunk_seq(chunk_stream_id, header_g, message@, c, ptr as nat)
                    =~= (out_before + (bh + mh + pl)) + spec_chunk_seq(
                    chunk_stream_id,
                    header_g,
                    message@,
                    c,
                    ptr as nat + size as nat,
                ));
            }
            ptr = ptr + size;
        }
        proof {
            assert(spec_chunk_seq(chunk_stream_id, header_g, message@, c, ptr as nat)
                =~= Seq::<u8>::empty());
            assert(out@ + Seq::<u8>::empty() =~= out@);
            assert(old(out)@ + spec_chunk_seq(chunk_stream_id, header_g, message@, c, 0) =~= out@);
        }
    }
}

/// Relies on rand::random: a value drawn from the thread-local generator.
pub assume_specification<T>[ rand::random::<T> ]() -> (r: T)
    where
        rand::distr::StandardUniform: rand::distr::Distribution<T>,
;

/// Builds the 1536-byte S1 packet: a four-byte time of zero, four zero
/// bytes, and 1528 bytes drawn fresh at random.
pub fn handshake_s1() -> (r: Vec<u8>)
    ensures
        r@.len() == 1536,
        forall|i: int| 0 <= i < 8 ==> r@[i] == 0,
{
    let mut v: Vec<u8> = Vec::new();
    let mut i: usize = 0;
    while i < 8
        invariant
            i <= 8,
            v@.len() == i,
            forall|j: int| 0 <= j < i ==> v@[j] == 0,
        decreases 8 - i,
    {
        v.push(0);
        i = i + 1;
    }
    while i < 1536
        invariant
            8 <= i <= 1536,
            v@.len() == i,
            forall|j: int| 0 <= j < 8 ==> v@[j] == 0,
        decreases 1536 - i,
    {
        let b: u8 = rand::random::<u8>();
        v.push(b);
        i = i + 1;
    }
    v
}

/// True exactly when the peer announced the one supported protocol version.
pub fn handshake_check_version(c0: u8) -> (r: bool)
    ensures
        r == (c0 == 3),
{
    c0 == 3
}

/// True exactly when C2 echoes S1 beyond the first eight bytes, the check
/// that accepts or rejects the handshake.
pub fn handshake_verify_echo(c2: &Vec<u8>, s1: &Vec<u8>) -> (r: bool)
    requires
        c2@.len() == 1536,
        s1@.len() == 1536,
    ensures
        r <==> c2@.skip(8) == s1@.skip(8),
{
    let mut i: usize = 8;
    while i < 1536
        invariant
            8 <= i <= 1536,
            c2@.len() == 1536,
            s1@.len() == 1536,
            forall|j: int| 8 <= j < i ==> c2@[j] == s1@[j],
        decreases 1536 - i,
    {
        if c2[i] != s1[i] {
            proof {
                assert(c2@.skip(8)[i - 8] != s1@.skip(8)[i - 8]);
            }
            return false;
        }
        i = i + 1;
    }
    proof {
        assert(c2@.skip(8) =~= s1@.skip(8));
    }
    true
}

/// Reading back the canonical format-0 message header yields the header the
/// writer held, for any reference header.  The extended timestamp appears
/// exactly when the timestamp reaches 0xFFFFFF and carries the full value.
pub proof fn lemma_message_header_round_trip_fmt0(
    bytes: Seq<u8>,
    pos: int,
    h: ChunkMessageHeader,
    prev: (ChunkMessageHeader, u8),
)
    requires
        h.message_length <= 0xFFFFFF,
        h.timestamp_delta == 0,
        0 <= pos,
        pos + spec_message_header_bytes(h, 0).len() <= bytes.len(),
        bytes.subrange(pos, pos + spec_message_header_bytes(h, 0).len() as int)
            == spec_message_header_bytes(h, 0),
    ensures
        spec_message_header_at(bytes, pos, prev, 0) == Some(
            (h, pos + spec_message_header_bytes(h, 0).len() as int),
        ),
{
    let enc = spec_message_header_bytes(h, 0);
    let v3: nat = if h.timestamp >= 0xFFFFFF {
        0xFFFFFF
    } else {
        h.timestamp as nat
    };
    let fixed = be_bytes(v3, 3) + (be_bytes(h.message_length as nat, 3) + seq![
        h.message_type_id,
    ]) + le_bytes(h.message_stream_id as nat, 4);
    let ext: Seq<u8> = if h.timestamp >= 0xFFFFFF {
        be_bytes(h.timestamp as nat, 4)
    } else {
        Seq::empty()
    };
    crate::utils::lemma_be_bytes_len(v3, 3);
    crate::utils::lemma_be_bytes_len(h.message_length as nat, 3);
    crate::utils::lemma_le_bytes_len(h.message_stream_id as nat, 4);
    crate::utils::lemma_be_bytes_len(h.timestamp as nat, 4);
    assert(enc =~= be_bytes(v3, 3) + ((be_bytes(h.message_length as nat, 3) + seq![
        h.message_type_id,
    ]) + (le_bytes(h.message_stream_id as nat, 4) + ext)));
    crate::amf::lemma_carve(
        bytes,
        pos,
        be_bytes(v3, 3),
        (be_bytes(h.message_length as nat, 3) + seq![h.message_type_id]) + (le_bytes(
            h.message_stream_id as nat,
            4,
        ) + ext),
    );
    crate::amf::lemma_carve(
        bytes,
        pos + 3,
        be_bytes(h.message_length as nat, 3) + seq![h.message_type_id],
        le_bytes(h.message_stream_id as nat, 4) + ext,
    );
    crate::amf::lemma_carve(
        bytes,
        pos + 3,
        be_bytes(h.message_length as nat, 3),
        seq![h.message_type_id],
    );
    crate::amf::lemma_carve(bytes, pos + 7, le_bytes(h.message_stream_id as nat, 4), ext);
    assert(pow256(3) == 0x1000000) by { reveal_with_fuel(pow256, 4); };
    assert(pow256(4) == 0x100000000) by { reveal_with_fuel(pow256, 5); };
    crate::utils::lemma_be_val_of_be_bytes(v3, 3);
    crate::utils::lemma_be_val_of_be_bytes(h.message_length as nat, 3);
    crate::utils::lemma_le_val_of_le_bytes(h.message_stream_id as nat, 4);
    assert(be_val(bytes.subrange(pos, pos + 3)) == v3);
    assert(be_val(bytes.subrange(pos + 3, pos + 6)) == h.message_length);
    assert(bytes[pos + 6] == h.message_type_id) by {
        assert(bytes.subrange(pos + 3, pos + 7) == be_bytes(h.message_length as nat, 3) + seq![
            h.message_type_id,
        ]);
        assert((be_bytes(h.message_length as nat, 3) + seq![h.message_type_id])[3]
            == h.message_type_id);
        assert(bytes.subrange(pos + 3, pos + 7)[3] == bytes[pos + 6]);
    };
    assert(le_val(bytes.subrange(pos + 7, pos + 11)) == h.message_stream_id);
    if h.timestamp >= 0xFFFFFF {
        crate::utils::lemma_be_val_of_be_bytes(h.timestamp as nat, 4);
        assert(bytes.subrange(pos + 11, pos + 15) == be_bytes(h.timestamp as nat, 4));
        assert(be_val(bytes.subrange(pos + 11, pos + 15)) == h.timestamp);
    }
}

/// Reading back a format-3 continuation written for the message whose
/// format-0 header is retained as the reference yields the reapplied-delta
/// expansion and consumes exactly the continuation's bytes.
pub proof fn lemma_message_header_round_trip_fmt3(
    bytes: Seq<u8>,
    pos: int,
    h: ChunkMessageHeader,
)
    requires
        h.timestamp_delta == 0,
        0 <= pos,
        pos + spec_message_header_bytes(h, 3).len() <= bytes.len(),
        bytes.subrange(pos, pos + spec_message_header_bytes(h, 3).len() as int)
            == spec_message_header_bytes(h, 3),
    ensures
        spec_message_header_at(bytes, pos, (h, 0), 3) == Some(
            (
                ChunkMessageHeader {
                    timestamp: add32(h.timestamp, h.timestamp),
                    timestamp_delta: h.timestamp,
                    message_length: h.message_length,
                    message_type_id: h.message_type_id,
                    message_stream_id: h.message_stream_id,
                },
                pos + spec_message_header_bytes(h, 3).len() as int,
            ),
        ),
{
    crate::utils::lemma_be_bytes_len(h.timestamp as nat, 4);
    if h.timestamp >= 0xFFFFFF {
        assert(pow256(4) == 0x100000000) by { reveal_with_fuel(pow256, 5); };
        crate::utils::lemma_be_val_of_be_bytes(h.timestamp as nat, 4);
        assert(bytes.subrange(pos, pos + 4) == be_bytes(h.timestamp as nat, 4));
        assert(be_val(bytes.subrange(pos, pos + 4)) == h.timestamp);
    }
}

/// How many chunks carry `rem` payload bytes when each chunk holds at most
/// `c`: the rounded-up quotient.
pub open spec fn chunks_needed(rem: nat, c: nat) -> nat
    decreases rem,
{
    if c == 0 || rem == 0 {
        0
    } else if rem <= c {
        1
    } else {
        1 + chunks_needed((rem - c) as nat, c)
    }
}

/// Runs the chunk reader `k` steps, collecting every message it emits.
pub open spec fn run_reader(m: StreamModel, bytes: Seq<u8>, pos: int, k: nat) -> Option<
    (StreamModel, Seq<MessageModel>, int),
>
    decreases k,
{
    if k == 0 {
        Some((m, Seq::empty(), pos))
    } else {
        match spec_read_message(m, bytes, pos) {
            Some((m2, emitted, p2)) => match run_reader(m2, bytes, p2, (k - 1) as nat) {
                Some((m3, msgs, p3)) => Some(
                    (
                        m3,
                        (match emitted {
                            Some(msg) => seq![msg],
                            None => Seq::empty(),
                        }) + msgs,
                        p3,
                    ),
                ),
                None => None,
            },
            None => None,
        }
    }
}

/// Reassembly round trip: the chunked encoding of a message, read back under
/// the same chunk size, emits exactly that message after exactly
/// `chunks_needed` chunks, none before, with the format-0 header's timestamp
/// on it.  The reader may start mid-message, holding the prefix already
/// carried.
#[verifier::rlimit(100)]
pub proof fn lemma_reassembly(
    m: StreamModel,
    bytes: Seq<u8>,
    pos: int,
    csid: u32,
    h: ChunkMessageHeader,
    payload: Seq<u8>,
    ptr: nat,
)
    requires
        2 <= csid <= 65599,
        1 <= m.max_chunk_size_read,
        payload.len() <= 0xFFFFFF,
        h.timestamp_delta == 0,
        h.message_length == payload.len(),
        ptr < payload.len(),
        if ptr == 0 {
            !m.channels.contains_key(csid)
        } else {
            &&& m.channels.contains_key(csid)
            &&& m.channels[csid] == (MessageModel { header: h, payload: payload.take(ptr as int) })
            &&& m.prev.contains_key(csid)
            &&& m.prev[csid] == (h, 0u8)
        },
        0 <= pos,
        pos + spec_chunk_seq(csid, h, payload, m.max_chunk_size_read, ptr).len() <= bytes.len(),
        bytes.subrange(
            pos,
            pos + spec_chunk_seq(csid, h, payload, m.max_chunk_size_read, ptr).len() as int,
        ) == spec_chunk_seq(csid, h, payload, m.max_chunk_size_read, ptr),
    ensures
        run_reader(m, bytes, pos, chunks_needed((payload.len() - ptr) as nat, m.max_chunk_size_read))
            == Some(
            (
                StreamModel {
                    channels: m.channels.remove(csid),
                    prev: m.prev.insert(csid, (h, 0u8)),
                    max_chunk_size_read: m.max_chunk_size_read,
                    max_chunk_size_write: m.max_chunk_size_write,
                },
                seq![MessageModel { header: h, payload }],
                pos + spec_chunk_seq(csid, h, payload, m.max_chunk_size_read, ptr).len() as int,
            ),
        ),
    decreases payload.len() - ptr,
{
    let c = m.max_chunk_size_read;
    let enc = spec_chunk_seq(csid, h, payload, c, ptr);
    let rem = (payload.len() - ptr) as nat;
    let size: nat = if c <= rem {
        c
    } else {
        rem
    };
    let fmt: u8 = if ptr == 0 {
        0
    } else {
        3
    };
    let bh = ChunkBasicHeader { chunk_stream_id: csid, chunk_type: fmt };
    let bhb = spec_basic_header_bytes(bh);
    let mhb = spec_message_header_bytes(h, fmt);
    let pl = payload.subrange(ptr as int, (ptr + size) as int);
    let rest = spec_chunk_seq(csid, h, payload, c, ptr + size);
    assert(enc == bhb + mhb + pl + rest);
    assert(enc =~= bhb + (mhb + (pl + rest)));
    crate::amf::lemma_carve(bytes, pos, bhb, mhb + (pl + rest));
    crate::amf::lemma_carve(bytes, pos + bhb.len(), mhb, pl + rest);
    crate::amf::lemma_carve(bytes, pos + bhb.len() + mhb.len(), pl, rest);
    lemma_basic_header_round_trip(bytes, pos, bh);
    let p1 = pos + bhb.len() as int;
    let p2 = p1 + mhb.len() as int;
    let expanded: ChunkMessageHeader;
    if ptr == 0 {
        lemma_message_header_round_trip_fmt0(bytes, p1, h, prev_of(m, csid));
        assert(spec_message_header_at(bytes, p1, prev_of(m, csid), 0) == Some((h, p2)));
    } else {
        lemma_message_header_round_trip_fmt3(bytes, p1, h);
    }
    // the step itself
    let stepped = spec_read_message(m, bytes, pos);
    assert(bytes.subrange(p2, p2 + size as int) == pl);
    if ptr + size == payload.len() {
        // final chunk: the message completes and is emitted
        assert(payload.take(ptr as int) + pl =~= payload);
        if ptr == 0 {
            assert(Seq::<u8>::empty() + pl =~= pl);
            assert(pl =~= payload);
        }
        assert(rest =~= Seq::<u8>::empty());
        assert(chunks_needed(rem, c) == 1);
        let m2 = StreamModel {
            channels: m.channels.remove(csid),
            prev: m.prev.insert(csid, (h, 0u8)),
            max_chunk_size_read: m.max_chunk_size_read,
            max_chunk_size_write: m.max_chunk_size_write,
        };
        if ptr != 0 {
            assert(m.prev.insert(csid, (h, 0u8)) =~= m.prev);
        }
        assert(stepped matches Some((sm, se, sp)) && se == Some(
            MessageModel { header: h, payload },
        ));
        let (sm, se, sp) = stepped->Some_0;
        assert(sm.channels =~= m2.channels);
        assert(sm.prev =~= m2.prev);
        assert(run_reader(sm, bytes, sp, 0) == Some((sm, Seq::<MessageModel>::empty(), sp)));
        assert(seq![MessageModel { header: h, payload }] + Seq::<MessageModel>::empty()
            =~= seq![MessageModel { header: h, payload }]);
    } else {
        // continuation: the partial grows and the rest of the chunks follow
        assert(size == c);
        assert(chunks_needed(rem, c) == 1 + chunks_needed((rem - c) as nat, c));
        let (sm, se, sp) = stepped->Some_0;
        assert(se is None);
        assert(sp == p2 + size);
        if ptr == 0 {
            assert(Seq::<u8>::empty() + pl =~= payload.take((ptr + size) as int));
        } else {
            assert(payload.take(ptr as int) + pl =~= payload.take((ptr + size) as int));
        }
        assert(sm.channels.contains_key(csid));
        assert(sm.channels[csid] == (MessageModel {
            header: h,
            payload: payload.take((ptr + size) as int),
        }));
        assert(sm.prev.contains_key(csid));
        assert(sm.prev[csid] == (h, 0u8));
        lemma_reassembly(sm, bytes, sp, csid, h, payload, ptr + size);
        let m2 = StreamModel {
            channels: m.channels.remove(csid),
            prev: m.prev.insert(csid, (h, 0u8)),
            max_chunk_size_read: m.max_chunk_size_read,
            max_chunk_size_write: m.max_chunk_size_write,
        };
        let inner = run_reader(sm, bytes, sp, chunks_needed((rem - c) as nat, c));
        let (fm, fmsgs, fp) = inner->Some_0;
        assert(fm.channels =~= m2.channels);
        assert(fm.prev =~= m2.prev);
        assert(Seq::<MessageModel>::empty() + seq![MessageModel { header: h, payload }]
            =~= seq![MessageModel { header: h, payload }]);
    }
}

/// Every chunk a reader accepts grows a partial message, or completes one,
/// by at most the announced read chunk size: after a chunk-size change,
/// every subsequent chunk is bounded by the new value.
pub proof fn lemma_chunk_read_bounded(m: StreamModel, bytes: Seq<u8>, pos: int)
    requires
        forall|k: u32|
            m.channels.contains_key(k) ==> (#[trigger] m.channels[k]).payload.len()
                <= m.channels[k].header.message_length,
    ensures
        spec_read_message(m, bytes, pos) matches Some((m2, emitted, p2)) ==> {
            &&& (forall|k: u32|
                m2.channels.contains_key(k) ==> (#[trigger] m2.channels[k]).payload.len() <= (
                if m.channels.contains_key(k) {
                    m.channels[k].payload.len()
                } else {
                    0
                }) + m.max_chunk_size_read)
            &&& (emitted matches Some(msg) ==> ({
                let bh = spec_basic_header_at(bytes, pos)->Some_0.0;
                msg.payload.len() <= (if m.channels.contains_key(bh.chunk_stream_id) {
                    m.channels[bh.chunk_stream_id].payload.len()
                } else {
                    0
                }) + m.max_chunk_size_read
            }))
        },
{
    let stepped = spec_read_message(m, bytes, pos);
    if stepped is Some {
        let bh = spec_basic_header_at(bytes, pos)->Some_0.0;
        let csid = bh.chunk_stream_id;
        assert forall|k: u32| stepped->Some_0.0.channels.contains_key(k) implies (
        #[trigger] stepped->Some_0.0.channels[k]).payload.len() <= (
        if m.channels.contains_key(k) {
            m.channels[k].payload.len()
        } else {
            0
        }) + m.max_chunk_size_read by {
            if k != csid {
                assert(stepped->Some_0.0.channels[k] == m.channels[k]);
            }
        }
    }
}

/// A format-3 chunk that starts a new message after a format-0 chunk
/// reapplies the last delta: with delta zero on the reference header, the
/// new message's timestamp is double the reference timestamp.
pub proof fn lemma_fmt3_reapplies_timestamp(m: StreamModel, bytes: Seq<u8>, pos: int)
    requires
        spec_basic_header_at(bytes, pos) matches Some((bh, p1)) && bh.chunk_type == 3,
    ensures
        spec_read_message(m, bytes, pos) matches Some((m2, emitted, p2)) ==> ({
            let bh = spec_basic_header_at(bytes, pos)->Some_0.0;
            let prev = prev_of(m, bh.chunk_stream_id);
            let delta = if prev.1 == 0 {
                prev.0.timestamp
            } else {
                prev.0.timestamp_delta
            };
            (!m.channels.contains_key(bh.chunk_stream_id) && emitted matches Some(msg))
                ==> emitted->Some_0.header.timestamp == add32(prev.0.timestamp, delta)
        }),
{
}

/// The two-chunk scenario behind delta reapplication: a format-0 chunk
/// carrying one whole message, then a format-3 chunk carrying a second whole
/// message of the same shape.  The first message keeps the format-0
/// timestamp; the second reapplies it as the delta, so its timestamp is
/// double the first.
pub proof fn lemma_fmt0_fmt3_doubles_timestamp(
    m: StreamModel,
    bytes: Seq<u8>,
    pos: int,
    csid: u32,
    h: ChunkMessageHeader,
    payload1: Seq<u8>,
    payload2: Seq<u8>,
)
    requires
        2 <= csid <= 65599,
        1 <= m.max_chunk_size_read,
        !m.channels.contains_key(csid),
        h.timestamp_delta == 0,
        1 <= h.message_length <= m.max_chunk_size_read,
        h.message_length <= 0xFFFFFF,
        payload1.len() == h.message_length,
        payload2.len() == h.message_length,
        0 <= pos,
        ({
            let chunk1 = spec_chunk_seq(csid, h, payload1, m.max_chunk_size_read, 0);
            let chunk2 = spec_basic_header_bytes(
                ChunkBasicHeader { chunk_stream_id: csid, chunk_type: 3 },
            ) + spec_message_header_bytes(h, 3) + payload2;
            &&& pos + chunk1.len() + chunk2.len() <= bytes.len()
            &&& bytes.subrange(pos, pos + chunk1.len() as int) == chunk1
            &&& bytes.subrange(pos + chunk1.len(), pos + chunk1.len() + chunk2.len()) == chunk2
        }),
    ensures
        ({
            let chunk1 = spec_chunk_seq(csid, h, payload1, m.max_chunk_size_read, 0);
            let chunk2 = spec_basic_header_bytes(
                ChunkBasicHeader { chunk_stream_id: csid, chunk_type: 3 },
            ) + spec_message_header_bytes(h, 3) + payload2;
            let h3 = ChunkMessageHeader {
                timestamp: add32(h.timestamp, h.timestamp),
                timestamp_delta: h.timestamp,
                message_length: h.message_length,
                message_type_id: h.message_type_id,
                message_stream_id: h.message_stream_id,
            };
            run_reader(m, bytes, pos, 2) matches Some((m3, msgs, end)) && msgs == seq![
                MessageModel { header: h, payload: payload1 },
                MessageModel { header: h3, payload: payload2 },
            ] && end == pos + chunk1.len() + chunk2.len()
        }),
{
    let c = m.max_chunk_size_read;
    let chunk1 = spec_chunk_seq(csid, h, payload1, c, 0);
    let bh3 = ChunkBasicHeader { chunk_stream_id: csid, chunk_type: 3 };
    let bhb = spec_basic_header_bytes(bh3);
    let mhb = spec_message_header_bytes(h, 3);
    let chunk2 = bhb + mhb + payload2;
    let h3 = ChunkMessageHeader {
        timestamp: add32(h.timestamp, h.timestamp),
        timestamp_delta: h.timestamp,
        message_length: h.message_length,
        message_type_id: h.message_type_id,
        message_stream_id: h.message_stream_id,
    };
    // first step: the format-0 chunk carries the whole first message
    assert(chunks_needed(payload1.len(), c) == 1);
    lemma_reassembly(m, bytes, pos, csid, h, payload1, 0);
    let m1 = StreamModel {
        channels: m.channels.remove(csid),
        prev: m.prev.insert(csid, (h, 0u8)),
        max_chunk_size_read: m.max_chunk_size_read,
        max_chunk_size_write: m.max_chunk_size_write,
    };
    let p1 = pos + chunk1.len() as int;
    let msg1 = MessageModel { header: h, payload: payload1 };
    assert(run_reader(m, bytes, pos, 1) == Some((m1, seq![msg1], p1)));
    let step1 = spec_read_message(m, bytes, pos);
    assert(step1 is Some);
    let (s1m, s1e, s1p) = step1->Some_0;
    assert(run_reader(s1m, bytes, s1p, 0) == Some((s1m, Seq::<MessageModel>::empty(), s1p)));
    assert(s1m == m1 && s1p == p1);
    // second step: the format-3 chunk starts and completes the next message
    assert(chunk2 =~= bhb + (mhb + payload2));
    crate::amf::lemma_carve(bytes, p1, bhb, mhb + payload2);
    crate::amf::lemma_carve(bytes, p1 + bhb.len(), mhb, payload2);
    lemma_basic_header_round_trip(bytes, p1, bh3);
    assert(m1.prev.contains_key(csid) && m1.prev[csid] == (h, 0u8));
    lemma_message_header_round_trip_fmt3(bytes, p1 + bhb.len(), h);
    let p2 = p1 + bhb.len() + mhb.len();
    assert(spec_message_header_at(bytes, p1 + bhb.len() as int, (h, 0u8), 3) == Some((h3, p2)));
    assert(!m1.channels.contains_key(csid));
    assert(bytes.subrange(p2, p2 + payload2.len() as int) == payload2);
    let step2 = spec_read_message(m1, bytes, p1);
    assert(Seq::<u8>::empty() + payload2 =~= payload2);
    let msg2 = MessageModel { header: h3, payload: payload2 };
    assert(step2 is Some);
    let (s2m, s2e, s2p) = step2->Some_0;
    assert(s2e == Some(msg2));
    assert(s2p == p2 + payload2.len());
    assert(run_reader(s2m, bytes, s2p, 0) == Some((s2m, Seq::<MessageModel>::empty(), s2p)));
    assert(seq![msg2] + Seq::<MessageModel>::empty() =~= seq![msg2]);
    assert(run_reader(m1, bytes, p1, 1) == Some((s2m, seq![msg2], s2p)));
    // compose the two steps
    assert(seq![msg1] + seq![msg2] =~= seq![msg1, msg2]);
    assert(run_reader(m, bytes, pos, 2) == Some((s2m, seq![msg1, msg2], s2p)));
    assert(s2p == pos + chunk1.len() + chunk2.len());
}

} // verus!
