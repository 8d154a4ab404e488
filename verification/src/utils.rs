//! Byte-level utilities: a positioned reader over a byte buffer, big- and
//! little-endian views of byte sequences, and verified numeric reads and
//! writes used by the AMF and chunk codecs.

use crate::error::Error;
use vstd::prelude::*;

verus! {

/// The value of a byte sequence read as a big-endian unsigned integer.
pub open spec fn be_val(s: Seq<u8>) -> nat
    decreases s.len(),
{
    if s.len() == 0 {
        0
    } else {
        (256 * be_val(s.drop_last()) + s.last()) as nat
    }
}

/// The value of a byte sequence read as a little-endian unsigned integer.
pub open spec fn le_val(s: Seq<u8>) -> nat
    decreases s.len(),
{
    if s.len() == 0 {
        0
    } else {
        (256 * le_val(s.drop_first()) + s.first()) as nat
    }
}

/// `256 ^ n`, the number of byte sequences of length `n`.
pub open spec fn pow256(n: nat) -> nat
    decreases n,
{
    if n == 0 {
        1
    } else {
        256 * pow256((n - 1) as nat)
    }
}

/// The canonical `n`-byte big-endian encoding of `v % 256^n`.
pub open spec fn be_bytes(v: nat, n: nat) -> Seq<u8>
    decreases n,
{
    if n == 0 {
        Seq::empty()
    } else {
        be_bytes(v / 256, (n - 1) as nat).push((v % 256) as u8)
    }
}

/// The canonical `n`-byte little-endian encoding of `v % 256^n`.
pub open spec fn le_bytes(v: nat, n: nat) -> Seq<u8>
    decreases n,
{
    if n == 0 {
        Seq::empty()
    } else {
        seq![(v % 256) as u8] + le_bytes(v / 256, (n - 1) as nat)
    }
}

pub proof fn lemma_be_bytes_len(v: nat, n: nat)
    ensures
        be_bytes(v, n).len() == n,
    decreases n,
{
    if n > 0 {
        lemma_be_bytes_len(v / 256, (n - 1) as nat);
    }
}

pub proof fn lemma_le_bytes_len(v: nat, n: nat)
    ensures
        le_bytes(v, n).len() == n,
    decreases n,
{
    if n > 0 {
        lemma_le_bytes_len(v / 256, (n - 1) as nat);
    }
}

pub proof fn lemma_be_val_bound(s: Seq<u8>)
    ensures
        be_val(s) < pow256(s.len()),
    decreases s.len(),
{
    if s.len() > 0 {
        lemma_be_val_bound(s.drop_last());
    }
}

/// Reading back the canonical big-endian encoding yields the value again.
pub proof fn lemma_be_val_of_be_bytes(v: nat, n: nat)
    requires
        v < pow256(n),
    ensures
        be_val(be_bytes(v, n)) == v,
    decreases n,
{
    if n > 0 {
        lemma_be_bytes_len(v / 256, (n - 1) as nat);
        assert(v / 256 < pow256((n - 1) as nat)) by {
            assert(pow256(n) == 256 * pow256((n - 1) as nat));
        };
        lemma_be_val_of_be_bytes(v / 256, (n - 1) as nat);
        let s = be_bytes(v, n);
        assert(s.drop_last() =~= be_bytes(v / 256, (n - 1) as nat));
        assert(be_val(s) == 256 * (v / 256) + v % 256);
    }
}

/// Reading back the canonical little-endian encoding yields the value again.
pub proof fn lemma_le_val_of_le_bytes(v: nat, n: nat)
    requires
        v < pow256(n),
    ensures
        le_val(le_bytes(v, n)) == v,
    decreases n,
{
    if n > 0 {
        lemma_le_bytes_len(v / 256, (n - 1) as nat);
        assert(v / 256 < pow256((n - 1) as nat)) by {
            assert(pow256(n) == 256 * pow256((n - 1) as nat));
        };
        lemma_le_val_of_le_bytes(v / 256, (n - 1) as nat);
        let s = le_bytes(v, n);
        assert(s.drop_first() =~= le_bytes(v / 256, (n - 1) as nat));
        assert(le_val(s) == 256 * (v / 256) + v % 256);
    }
}

/// A reader that walks a byte buffer from front to back: the in-memory form
/// of the byte-oriented connection the protocol reads from.
pub struct ByteReader<'a> {
    pub data: &'a Vec<u8>,
    pub pos: usize,
}

impl<'a> ByteReader<'a> {
    /// The position never runs past the end of the buffer.
    pub open spec fn wf(self) -> bool {
        self.pos <= self.data@.len()
    }

    /// The bytes not yet consumed.
    pub open spec fn rest(self) -> Seq<u8> {
        self.data@.skip(self.pos as int)
    }

    pub fn new(data: &'a Vec<u8>) -> (r: ByteReader<'a>)
        ensures
            r.data@ == data@,
            r.pos == 0,
            r.wf(),
    {
        ByteReader { data, pos: 0 }
    }

    /// How many bytes have been consumed so far.
    pub fn position(&self) -> (p: usize)
        ensures
            p == self.pos,
    {
        self.pos
    }
}

/// Reads one byte.
pub fn read_u8(reader: &mut ByteReader) -> (res: Result<u8, Error>)
    requires
        old(reader).wf(),
    ensures
        final(reader).wf(),
        final(reader).data@ == old(reader).data@,
        match res {
            Ok(b) => {
                &&& old(reader).pos + 1 <= old(reader).data@.len()
                &&& final(reader).pos == old(reader).pos + 1
                &&& b == old(reader).data@[old(reader).pos as int]
            },
            Err(e) => {
                &&& e == Error::Io
                &&& old(reader).pos + 1 > old(reader).data@.len()
                &&& final(reader).pos == old(reader).pos
            },
        },
{
    if reader.pos < reader.data.len() {
        let b = reader.data[reader.pos];
        reader.pos = reader.pos + 1;
        Ok(b)
    } else {
        Err(Error::Io)
    }
}

/// Reads `nbytes` bytes and aggregates them as a big-endian integer.
pub fn read_numeric(reader: &mut ByteReader, nbytes: usize) -> (res: Result<u32, Error>)
    requires
        old(reader).wf(),
        nbytes <= 4,
    ensures
        final(reader).wf(),
        final(reader).data@ == old(reader).data@,
        match res {
            Ok(v) => {
                &&& old(reader).pos + nbytes <= old(reader).data@.len()
                &&& final(reader).pos == old(reader).pos + nbytes
                &&& v == be_val(
                    old(reader).data@.subrange(
                        old(reader).pos as int,
                        old(reader).pos + nbytes,
                    ),
                )
            },
            Err(e) => {
                &&& e == Error::Io
                &&& old(reader).pos + nbytes > old(reader).data@.len()
                &&& final(reader).pos == old(reader).pos
            },
        },
{
    let total = reader.data.len();
    if total - reader.pos < nbytes {
        return Err(Error::Io);
    }
    let ghost start = reader.pos as int;
    let mut acc: u32 = 0;
    let mut i: usize = 0;
    while i < nbytes
        invariant
            reader.data@ == old(reader).data@,
            start == old(reader).pos as int,
            reader.pos == old(reader).pos + i,
            i <= nbytes,
            nbytes <= 4,
            reader.data@.len() == total,
            old(reader).pos + nbytes <= reader.data@.len(),
            acc == be_val(reader.data@.subrange(start, start + i)),
            acc < pow256(i as nat),
        decreases nbytes - i,
    {
        proof {
            lemma_be_val_bound(reader.data@.subrange(start, start + i));
            lemma_pow256_le(i as nat, 3);
            assert(pow256(3) == 0x1000000) by { reveal_with_fuel(pow256, 4); };
        }
        let b = reader.data[reader.pos];
        reader.pos = reader.pos + 1;
        acc = acc * 256 + (b as u32);
        i = i + 1;
        proof {
            let s = reader.data@.subrange(start, start + i);
            assert(s.drop_last() =~= reader.data@.subrange(start, start + i - 1));
            assert(s.last() == b);
        }
    }
    Ok(acc)
}

/// Reads two bytes as a big-endian `u16`.
pub fn read_u16(reader: &mut ByteReader) -> (res: Result<u16, Error>)
    requires
        old(reader).wf(),
    ensures
        final(reader).wf(),
        final(reader).data@ == old(reader).data@,
        match res {
            Ok(v) => {
                &&& old(reader).pos + 2 <= old(reader).data@.len()
                &&& final(reader).pos == old(reader).pos + 2
                &&& v == be_val(
                    old(reader).data@.subrange(old(reader).pos as int, old(reader).pos + 2),
                )
            },
            Err(e) => {
                &&& e == Error::Io
                &&& old(reader).pos + 2 > old(reader).data@.len()
                &&& final(reader).pos == old(reader).pos
            },
        },
{
    let v = read_numeric(reader, 2)?;
    proof {
        lemma_be_val_bound(old(reader).data@.subrange(old(reader).pos as int, old(reader).pos + 2));
        assert(pow256(2) == 0x10000) by { reveal_with_fuel(pow256, 3); };
    }
    Ok(v as u16)
}

/// Reads four bytes as a big-endian `u32`.
pub fn read_u32(reader: &mut ByteReader) -> (res: Result<u32, Error>)
    requires
        old(reader).wf(),
    ensures
        final(reader).wf(),
        final(reader).data@ == old(reader).data@,
        match res {
            Ok(v) => {
                &&& old(reader).pos + 4 <= old(reader).data@.len()
                &&& final(reader).pos == old(reader).pos + 4
                &&& v == be_val(
                    old(reader).data@.subrange(old(reader).pos as int, old(reader).pos + 4),
                )
            },
            Err(e) => {
                &&& e == Error::Io
                &&& old(reader).pos + 4 > old(reader).data@.len()
                &&& final(reader).pos == old(reader).pos
            },
        },
{
    read_numeric(reader, 4)
}

/// Reads two bytes as a big-endian two's-complement `i16`.
pub fn read_i16(reader: &mut ByteReader) -> (res: Result<i16, Error>)
    requires
        old(reader).wf(),
    ensures
        final(reader).wf(),
        final(reader).data@ == old(reader).data@,
        match res {
            Ok(v) => {
                &&& old(reader).pos + 2 <= old(reader).data@.len()
                &&& final(reader).pos == old(reader).pos + 2
                &&& {
                    let raw = be_val(
                        old(reader).data@.subrange(old(reader).pos as int, old(reader).pos + 2),
                    );
                    v == if raw < 0x8000 {
                        raw as int
                    } else {
                        raw - 0x10000
                    }
                }
            },
            Err(e) => {
                &&& e == Error::Io
                &&& old(reader).pos + 2 > old(reader).data@.len()
                &&& final(reader).pos == old(reader).pos
            },
        },
{
    let v = read_u16(reader)?;
    if v < 0x8000 {
        Ok(v as i16)
    } else {
        Ok(((v as i32) - 0x10000) as i16)
    }
}

/// Reads eight bytes as a big-endian `u64` (the raw form of a wire double).
pub fn read_u64(reader: &mut ByteReader) -> (res: Result<u64, Error>)
    requires
        old(reader).wf(),
    ensures
        final(reader).wf(),
        final(reader).data@ == old(reader).data@,
        match res {
            Ok(v) => {
                &&& old(reader).pos + 8 <= old(reader).data@.len()
                &&& final(reader).pos == old(reader).pos + 8
                &&& v == be_val(
                    old(reader).data@.subrange(old(reader).pos as int, old(reader).pos + 8),
                )
            },
            Err(e) => {
                &&& e == Error::Io
                &&& old(reader).pos + 8 > old(reader).data@.len()
                &&& final(reader).pos == old(reader).pos
            },
        },
{
    let total = reader.data.len();
    if total - reader.pos < 8 {
        return Err(Error::Io);
    }
    let ghost start = reader.pos as int;
    let mut acc: u64 = 0;
    let mut i: usize = 0;
    while i < 8
        invariant
            reader.data@ == old(reader).data@,
            start == old(reader).pos as int,
            reader.pos == old(reader).pos + i,
            i <= 8,
            reader.data@.len() == total,
            old(reader).pos + 8 <= reader.data@.len(),
            acc == be_val(reader.data@.subrange(start, start + i)),
            acc < pow256(i as nat),
        decreases 8 - i,
    {
        proof {
            lemma_be_val_bound(reader.data@.subrange(start, start + i));
            lemma_pow256_le(i as nat, 7);
            assert(pow256(7) == 0x100000000000000) by { reveal_with_fuel(pow256, 8); };
        }
        let b = reader.data[reader.pos];
        reader.pos = reader.pos + 1;
        acc = acc * 256 + (b as u64);
        i = i + 1;
        proof {
            let s = reader.data@.subrange(start, start + i);
            assert(s.drop_last() =~= reader.data@.subrange(start, start + i - 1));
            assert(s.last() == b);
        }
    }
    Ok(acc)
}

pub proof fn lemma_pow256_le(a: nat, b: nat)
    requires
        a <= b,
    ensures
        pow256(a) <= pow256(b),
    decreases b,
{
    if a < b {
        lemma_pow256_le(a, (b - 1) as nat);
    }
}

/// Reads `nbytes` raw bytes.
pub fn read_buffer(reader: &mut ByteReader, nbytes: usize) -> (res: Result<Vec<u8>, Error>)
    requires
        old(reader).wf(),
    ensures
        final(reader).wf(),
        final(reader).data@ == old(reader).data@,
        match res {
            Ok(v) => {
                &&& old(reader).pos + nbytes <= old(reader).data@.len()
                &&& final(reader).pos == old(reader).pos + nbytes
                &&& v@ == old(reader).data@.subrange(
                    old(reader).pos as int,
                    old(reader).pos + nbytes,
                )
            },
            Err(e) => {
                &&& e == Error::Io
                &&& old(reader).pos + nbytes > old(reader).data@.len()
                &&& final(reader).pos == old(reader).pos
            },
        },
{
    let total = reader.data.len();
    if total - reader.pos < nbytes {
        return Err(Error::Io);
    }
    let ghost start = reader.pos as int;
    let mut out: Vec<u8> = Vec::new();
    proof {
        assert(out@ =~= reader.data@.subrange(start, start));
    }
    let mut i: usize = 0;
    while i < nbytes
        invariant
            reader.data@ == old(reader).data@,
            start == old(reader).pos as int,
            reader.pos == old(reader).pos + i,
            i <= nbytes,
            reader.data@.len() == total,
            old(reader).pos + nbytes <= reader.data@.len(),
            out@ == reader.data@.subrange(start, start + i),
        decreases nbytes - i,
    {
        let b = reader.data[reader.pos];
        reader.pos = reader.pos + 1;
        out.push(b);
        i = i + 1;
        proof {
            assert(out@ =~= reader.data@.subrange(start, start + i));
        }
    }
    Ok(out)
}

/// Reads exactly `N` raw bytes.
pub fn read_buffer_sized<const N: usize>(reader: &mut ByteReader) -> (res: Result<Vec<u8>, Error>)
    requires
        old(reader).wf(),
    ensures
        final(reader).wf(),
        final(reader).data@ == old(reader).data@,
        match res {
            Ok(v) => {
                &&& old(reader).pos + N <= old(reader).data@.len()
                &&& final(reader).pos == old(reader).pos + N
                &&& v@ == old(reader).data@.subrange(old(reader).pos as int, old(reader).pos + N)
            },
            Err(e) => {
                &&& e == Error::Io
                &&& old(reader).pos + N > old(reader).data@.len()
                &&& final(reader).pos == old(reader).pos
            },
        },
{
    read_buffer(reader, N)
}

/// Aggregates up to four bytes into an integer, front byte most significant
/// unless `is_little_endian`.
pub fn aggregate(buffer: &Vec<u8>, is_little_endian: bool) -> (res: u32)
    requires
        buffer@.len() <= 4,
    ensures
        res == if is_little_endian {
            le_val(buffer@)
        } else {
            be_val(buffer@)
        },
{
    proof {
        lemma_be_val_bound(buffer@);
        lemma_le_val_bound(buffer@);
        lemma_pow256_le(buffer@.len(), 4);
        assert(pow256(4) == 0x100000000) by { reveal_with_fuel(pow256, 5); };
    }
    if is_little_endian {
        let mut acc: u32 = 0;
        let mut i: usize = buffer.len();
        while i > 0
            invariant
                buffer@.len() <= 4,
                i <= buffer@.len(),
                acc == le_val(buffer@.skip(i as int)),
                acc < pow256((buffer@.len() - i) as nat),
            decreases i,
        {
            proof {
                lemma_pow256_le((buffer@.len() - i) as nat, 3);
                assert(pow256(3) == 0x1000000) by { reveal_with_fuel(pow256, 4); };
            }
            i = i - 1;
            let b = buffer[i];
            acc = acc * 256 + (b as u32);
            proof {
                let s = buffer@.skip(i as int);
                assert(s.first() == b);
                assert(s.drop_first() =~= buffer@.skip(i + 1));
            }
        }
        proof {
            assert(buffer@.skip(0) =~= buffer@);
        }
        acc
    } else {
        let mut acc: u32 = 0;
        let mut i: usize = 0;
        while i < buffer.len()
            invariant
                buffer@.len() <= 4,
                i <= buffer@.len(),
                acc == be_val(buffer@.take(i as int)),
                acc < pow256(i as nat),
            decreases buffer@.len() - i,
        {
            proof {
                lemma_be_val_bound(buffer@.take(i as int));
                lemma_pow256_le(i as nat, 3);
                assert(pow256(3) == 0x1000000) by { reveal_with_fuel(pow256, 4); };
            }
            let b = buffer[i];
            acc = acc * 256 + (b as u32);
            i = i + 1;
            proof {
                let s = buffer@.take(i as int);
                assert(s.drop_last() =~= buffer@.take(i - 1));
                assert(s.last() == b);
            }
        }
        proof {
            assert(buffer@.take(buffer@.len() as int) =~= buffer@);
        }
        acc
    }
}

pub proof fn lemma_le_val_bound(s: Seq<u8>)
    ensures
        le_val(s) < pow256(s.len()),
    decreases s.len(),
{
    if s.len() > 0 {
        lemma_le_val_bound(s.drop_first());
    }
}

/// Appends the two-byte big-endian form of `v`.
pub fn push_u16_be(out: &mut Vec<u8>, v: u16)
    ensures
        final(out)@ == old(out)@ + be_bytes(v as nat, 2),
{
    proof {
        lemma_unfold_be_bytes2(v as nat);
    }
    out.push((v / 0x100) as u8);
    out.push((v % 0x100) as u8);
    proof {
        assert(out@ =~= old(out)@ + be_bytes(v as nat, 2));
    }
}

proof fn lemma_unfold_be_bytes2(v: nat)
    requires
        v < 0x10000,
    ensures
        be_bytes(v, 2) =~= seq![(v / 0x100) as u8, (v % 0x100) as u8],
{
    reveal_with_fuel(be_bytes, 3);
    assert(v / 0x100 % 0x100 == v / 0x100) by (nonlinear_arith)
        requires
            v < 0x10000,
    ;
}

/// Appends the three-byte big-endian form of `v`, which must fit.
pub fn push_u24_be(out: &mut Vec<u8>, v: u32)
    requires
        v < 0x1000000,
    ensures
        final(out)@ == old(out)@ + be_bytes(v as nat, 3),
{
    proof {
        lemma_unfold_be_bytes4(v as nat);
    }
    out.push((v / 0x10000) as u8);
    out.push((v / 0x100 % 0x100) as u8);
    out.push((v % 0x100) as u8);
    proof {
        assert(out@ =~= old(out)@ + be_bytes(v as nat, 3));
    }
}

/// Appends the four-byte big-endian form of `v`.
pub fn push_u32_be(out: &mut Vec<u8>, v: u32)
    ensures
        final(out)@ == old(out)@ + be_bytes(v as nat, 4),
{
    proof {
        lemma_unfold_be_bytes4(v as nat);
    }
    out.push((v / 0x1000000) as u8);
    out.push((v / 0x10000 % 0x100) as u8);
    out.push((v / 0x100 % 0x100) as u8);
    out.push((v % 0x100) as u8);
    proof {
        assert(out@ =~= old(out)@ + be_bytes(v as nat, 4));
    }
}

proof fn lemma_unfold_be_bytes4(v: nat)
    requires
        v < 0x100000000,
    ensures
        be_bytes(v, 4) =~= seq![
            (v / 0x1000000) as u8,
            (v / 0x10000 % 0x100) as u8,
            (v / 0x100 % 0x100) as u8,
            (v % 0x100) as u8,
        ],
        v < 0x1000000 ==> be_bytes(v, 3) =~= seq![
            (v / 0x10000) as u8,
            (v / 0x100 % 0x100) as u8,
            (v % 0x100) as u8,
        ],
{
    reveal_with_fuel(be_bytes, 5);
    assert(v / 0x100 / 0x100 == v / 0x10000) by (nonlinear_arith);
    assert(v / 0x10000 / 0x100 == v / 0x1000000) by (nonlinear_arith);
    assert(v / 0x1000000 % 0x100 == v / 0x1000000) by (nonlinear_arith)
        requires
            v < 0x100000000,
    ;
    assert(v < 0x1000000 ==> v / 0x10000 % 0x100 == v / 0x10000) by (nonlinear_arith);
}

/// Appends the four-byte little-endian form of `v`.
pub fn push_u32_le(out: &mut Vec<u8>, v: u32)
    ensures
        final(out)@ == old(out)@ + le_bytes(v as nat, 4),
{
    proof {
        reveal_with_fuel(le_bytes, 5);
        assert(v as nat / 0x100 / 0x100 == v as nat / 0x10000) by (nonlinear_arith);
        assert(v as nat / 0x10000 / 0x100 == v as nat / 0x1000000) by (nonlinear_arith);
        assert(le_bytes(v as nat, 4) =~= seq![
            (v % 0x100) as u8,
            (v / 0x100 % 0x100) as u8,
            (v / 0x10000 % 0x100) as u8,
            (v / 0x1000000 % 0x100) as u8,
        ]);
    }
    out.push((v % 0x100) as u8);
    out.push((v / 0x100 % 0x100) as u8);
    out.push((v / 0x10000 % 0x100) as u8);
    out.push((v / 0x1000000 % 0x100) as u8);
    proof {
        assert(out@ =~= old(out)@ + le_bytes(v as nat, 4));
    }
}

/// Appends the eight-byte big-endian form of `v`.
pub fn push_u64_be(out: &mut Vec<u8>, v: u64)
    ensures
        final(out)@ == old(out)@ + be_bytes(v as nat, 8),
{
    proof {
        lemma_unfold_be_bytes8(v as nat);
    }
    out.push((v / 0x100000000000000 % 0x100) as u8);
    out.push((v / 0x1000000000000 % 0x100) as u8);
    out.push((v / 0x10000000000 % 0x100) as u8);
    out.push((v / 0x100000000 % 0x100) as u8);
    out.push((v / 0x1000000 % 0x100) as u8);
    out.push((v / 0x10000 % 0x100) as u8);
    out.push((v / 0x100 % 0x100) as u8);
    out.push((v % 0x100) as u8);
    proof {
        assert(out@ =~= old(out)@ + be_bytes(v as nat, 8));
    }
}

proof fn lemma_unfold_be_bytes8(v: nat)
    requires
        v < 0x10000000000000000,
    ensures
        be_bytes(v, 8) =~= seq![
            (v / 0x100000000000000 % 0x100) as u8,
            (v / 0x1000000000000 % 0x100) as u8,
            (v / 0x10000000000 % 0x100) as u8,
            (v / 0x100000000 % 0x100) as u8,
            (v / 0x1000000 % 0x100) as u8,
            (v / 0x10000 % 0x100) as u8,
            (v / 0x100 % 0x100) as u8,
            (v % 0x100) as u8,
        ],
{
    reveal_with_fuel(be_bytes, 9);
    assert(v / 0x100 / 0x100 == v / 0x10000) by (nonlinear_arith);
    assert(v / 0x10000 / 0x100 == v / 0x1000000) by (nonlinear_arith);
    assert(v / 0x1000000 / 0x100 == v / 0x100000000) by (nonlinear_arith);
    assert(v / 0x100000000 / 0x100 == v / 0x10000000000) by (nonlinear_arith);
    assert(v / 0x10000000000 / 0x100 == v / 0x1000000000000) by (nonlinear_arith);
    assert(v / 0x1000000000000 / 0x100 == v / 0x100000000000000) by (nonlinear_arith);
}

/// Appends a whole slice of bytes.
pub fn push_bytes(out: &mut Vec<u8>, src: &[u8])
    ensures
        final(out)@ == old(out)@ + src@,
{
    let mut i: usize = 0;
    proof {
        assert(out@ =~= old(out)@ + src@.take(0));
    }
    while i < src.len()
        invariant
            i <= src@.len(),
            out@ == old(out)@ + src@.take(i as int),
        decreases src@.len() - i,
    {
        let b = src[i];
        out.push(b);
        i = i + 1;
        proof {
            assert(out@ =~= old(out)@ + src@.take(i as int));
        }
    }
    proof {
        assert(src@.take(src@.len() as int) =~= src@);
    }
}

/// The position of the highest set bit: `pow2(floor_log2(n)) <= n` for
/// positive `n`.
pub open spec fn floor_log2(n: nat) -> nat
    decreases n,
{
    if n <= 1 {
        0
    } else {
        1 + floor_log2(n / 2)
    }
}

/// The IEEE-754 double bit pattern of a small non-negative integer: sign
/// zero, biased exponent, and the bits below the leading one shifted into
/// the 52-bit mantissa.  Exact for every `n < 2^53`.
pub open spec fn f64_bits_of_int(n: nat) -> nat {
    if n == 0 {
        0
    } else {
        let e = floor_log2(n);
        ((1023 + e) * vstd::arithmetic::power2::pow2(52) + (n - vstd::arithmetic::power2::pow2(e))
            * vstd::arithmetic::power2::pow2((52 - e) as nat)) as nat
    }
}

proof fn lemma_floor_log2_range(n: nat, e: nat)
    requires
        vstd::arithmetic::power2::pow2(e) <= n < 2 * vstd::arithmetic::power2::pow2(e),
    ensures
        floor_log2(n) == e,
    decreases e,
{
    if e == 0 {
        assert(vstd::arithmetic::power2::pow2(0) == 1) by {
            vstd::arithmetic::power2::lemma2_to64();
        };
    } else {
        vstd::arithmetic::power2::lemma_pow2_unfold(e);
        assert(vstd::arithmetic::power2::pow2(e) == 2 * vstd::arithmetic::power2::pow2(
            (e - 1) as nat,
        ));
        vstd::arithmetic::power2::lemma_pow2_pos((e - 1) as nat);
        let k = vstd::arithmetic::power2::pow2((e - 1) as nat);
        assert(2 * k <= n < 4 * k);
        assert(k <= n / 2 < 2 * k) by (nonlinear_arith)
            requires
                2 * k <= n < 4 * k,
                k >= 1,
        ;
        lemma_floor_log2_range(n / 2, (e - 1) as nat);
        assert(n >= 2);
    }
}

/// `2 ^ e` as a machine word.
fn pow2_u64(e: u32) -> (r: u64)
    requires
        e <= 63,
    ensures
        r as nat == vstd::arithmetic::power2::pow2(e as nat),
        r >= 1,
{
    let mut r: u64 = 1;
    let mut k: u32 = 0;
    proof {
        vstd::arithmetic::power2::lemma2_to64();
        vstd::arithmetic::power2::lemma2_to64_rest();
    }
    while k < e
        invariant
            k <= e,
            e <= 63,
            r as nat == vstd::arithmetic::power2::pow2(k as nat),
            r >= 1,
        decreases e - k,
    {
        proof {
            if k as nat + 1 <= 63 {
                vstd::arithmetic::power2::lemma_pow2_strictly_increases(
                    k as nat + 1,
                    64,
                );
            }
            assert(vstd::arithmetic::power2::pow2(64) == 0x10000000000000000) by {
                vstd::arithmetic::power2::lemma2_to64_rest();
            };
            vstd::arithmetic::power2::lemma_pow2_unfold(k as nat + 1);
        }
        r = r * 2;
        k = k + 1;
    }
    r
}

/// The IEEE-754 double bit pattern of `n`, computed with integer arithmetic
/// alone.
pub fn f64_bits_of_u32(n: u32) -> (r: u64)
    ensures
        r as nat == f64_bits_of_int(n as nat),
{
    if n == 0 {
        return 0;
    }
    let mut e: u32 = 0;
    let mut m: u32 = n;
    proof {
        vstd::arithmetic::power2::lemma2_to64();
        assert(m as nat == n as nat / vstd::arithmetic::power2::pow2(0));
    }
    while m > 1
        invariant
            1 <= n,
            1 <= m,
            e <= 31,
            m as nat == n as nat / vstd::arithmetic::power2::pow2(e as nat),
        decreases m,
    {
        proof {
            let p = vstd::arithmetic::power2::pow2(e as nat);
            vstd::arithmetic::power2::lemma_pow2_pos(e as nat);
            vstd::arithmetic::power2::lemma_pow2_adds(e as nat, 1);
            assert(vstd::arithmetic::power2::pow2(1) == 2) by {
                vstd::arithmetic::power2::lemma2_to64();
            };
            assert(m as nat / 2 == n as nat / vstd::arithmetic::power2::pow2(e as nat + 1)) by (
            nonlinear_arith)
                requires
                    p >= 1,
                    m as nat == n as nat / p,
                    vstd::arithmetic::power2::pow2(e as nat + 1) == p * 2,
            ;
            // m >= 2 here, so pow2(e + 1) <= n < 2^32, keeping e + 1 <= 31
            assert(n as nat >= 2 * p) by (nonlinear_arith)
                requires
                    p >= 1,
                    m as nat == n as nat / p,
                    m >= 2,
            ;
            if e == 31 {
                assert(vstd::arithmetic::power2::pow2(31) == 0x80000000) by {
                    vstd::arithmetic::power2::lemma2_to64();
                };
                assert(false);
            }
        }
        m = m / 2;
        e = e + 1;
    }
    proof {
        let p = vstd::arithmetic::power2::pow2(e as nat);
        vstd::arithmetic::power2::lemma_pow2_pos(e as nat);
        assert(p <= (n as nat) && (n as nat) < 2 * p) by (nonlinear_arith)
            requires
                p >= 1,
                1 as nat == n as nat / p,
        ;
        lemma_floor_log2_range(n as nat, e as nat);
    }
    let pe: u64 = pow2_u64(e);
    let ps: u64 = pow2_u64(52 - e);
    proof {
        let p = vstd::arithmetic::power2::pow2(e as nat);
        let q = vstd::arithmetic::power2::pow2((52 - e) as nat);
        vstd::arithmetic::power2::lemma_pow2_adds(e as nat, (52 - e) as nat);
        assert(vstd::arithmetic::power2::pow2(52) == 0x10000000000000) by {
            vstd::arithmetic::power2::lemma2_to64_rest();
        };
        assert((n as nat - p) * q < p * q) by (nonlinear_arith)
            requires
                p <= (n as nat) && (n as nat) < 2 * p,
                q >= 1,
        ;
    }
    let mant: u64 = ((n as u64) - pe) * ps;
    let bits: u64 = (1023 + (e as u64)) * 0x10000000000000 + mant;
    bits
}

/// Appends `src[from..to]`.
pub fn push_slice_range(out: &mut Vec<u8>, src: &[u8], from: usize, to: usize)
    requires
        from <= to <= src@.len(),
    ensures
        final(out)@ == old(out)@ + src@.subrange(from as int, to as int),
{
    let mut i: usize = from;
    proof {
        assert(out@ =~= old(out)@ + src@.subrange(from as int, from as int));
    }
    while i < to
        invariant
            from <= i <= to <= src@.len(),
            out@ == old(out)@ + src@.subrange(from as int, i as int),
        decreases to - i,
    {
        let b = src[i];
        out.push(b);
        i = i + 1;
        proof {
            assert(out@ =~= old(out)@ + src@.subrange(from as int, i as int));
        }
    }
}

/// The big-endian value of four bytes, spelled out.
pub proof fn lemma_be_val_4(s: Seq<u8>)
    requires
        s.len() == 4,
    ensures
        be_val(s) == 0x1000000 * s[0] + 0x10000 * s[1] + 0x100 * s[2] + s[3],
{
    reveal_with_fuel(be_val, 5);
    let s3 = s.drop_last();
    let s2 = s3.drop_last();
    let s1 = s2.drop_last();
    assert(s1.drop_last() =~= Seq::<u8>::empty());
    assert(s.last() == s[3] && s3.last() == s[2] && s2.last() == s[1] && s1.last() == s[0]);
}

/// The bytes from `from` to the end, as a fresh buffer.
pub fn tail_bytes(v: &Vec<u8>, from: usize) -> (r: Vec<u8>)
    requires
        from <= v@.len(),
    ensures
        r@ == v@.skip(from as int),
{
    let mut r: Vec<u8> = Vec::new();
    let mut i: usize = from;
    proof {
        assert(r@ =~= v@.subrange(from as int, from as int));
    }
    while i < v.len()
        invariant
            from <= i <= v@.len(),
            r@ == v@.subrange(from as int, i as int),
        decreases v@.len() - i,
    {
        let b = v[i];
        r.push(b);
        i = i + 1;
        proof {
            assert(r@ =~= v@.subrange(from as int, i as int));
        }
    }
    proof {
        assert(v@.subrange(from as int, v@.len() as int) =~= v@.skip(from as int));
    }
    r
}

} // verus!
