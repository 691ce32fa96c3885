//! The length-prefixed little-endian packet buffer with a read cursor.
use crate::bytes::{
    le_u16, le_u32, le_u64, lemma_u32_round_trip, push_all, push_u16_le, push_u32_le, push_u64_le,
    read_u16_le, read_u32_le, read_u64_le, u16_le, u32_le, u64_le,
};
use crate::coremedia::audio_desc::AudioStreamDescription;
use crate::coremedia::time::{time_bytes, Time};
use crate::error::QtError;
use crate::qt_value::QTValue;
use crate::wire::{encodable, encode_value, parse_asbd, parse_value};
use vstd::prelude::*;

verus! {

/// What a packet buffer holds: its bytes, the first four of which are the
/// length header, and the position of its read cursor.
pub ghost struct PacketView {
    pub bytes: Seq<u8>,
    pub pos: nat,
}

impl PacketView {
    /// The header is there and the cursor lies within the bytes.
    pub open spec fn wf(self) -> bool {
        4 <= self.bytes.len() && self.pos <= self.bytes.len()
    }

    /// The bytes that the cursor has not read yet.
    pub open spec fn rest(self) -> Seq<u8> {
        self.bytes.subrange(self.pos as int, self.bytes.len() as int)
    }

    /// The same buffer with the cursor moved `n` bytes on.
    pub open spec fn advanced(self, n: nat) -> PacketView {
        PacketView { bytes: self.bytes, pos: self.pos + n }
    }

    /// The buffer with `b` written at the cursor, over what was there and
    /// past the end if need be; the cursor moves past what was written.
    pub open spec fn written(self, b: Seq<u8>) -> PacketView {
        PacketView {
            bytes: self.bytes.subrange(0, self.pos as int) + b + if self.pos + b.len()
                < self.bytes.len() {
                self.bytes.subrange(self.pos + b.len() as int, self.bytes.len() as int)
            } else {
                Seq::empty()
            },
            pos: self.pos + b.len(),
        }
    }

    /// A buffer as the writers leave it: four header bytes, then `body`,
    /// cursor at the end.
    pub open spec fn fresh(body: Seq<u8>) -> PacketView {
        PacketView { bytes: seq![0u8, 0u8, 0u8, 0u8] + body, pos: 4 + body.len() }
    }

    /// The bytes as they go on the wire: the header holds the total length.
    pub open spec fn finalized(self) -> Seq<u8> {
        u32_le(self.bytes.len() as u32) + self.bytes.subrange(4, self.bytes.len() as int)
    }

    /// A buffer whose header already holds its length is sent as it is.
    pub proof fn lemma_finalized_same(self)
        requires
            4 <= self.bytes.len() <= u32::MAX,
            self.bytes.subrange(0, 4) == u32_le(self.bytes.len() as u32),
        ensures
            self.finalized() == self.bytes,
    {
        assert(self.finalized() =~= self.bytes);
    }

    /// The body after the header.
    pub open spec fn body(self) -> Seq<u8> {
        self.bytes.subrange(4, self.bytes.len() as int)
    }
}

/// The wire form of a node: its total length, then `body`.
pub open spec fn framed(body: Seq<u8>) -> Seq<u8> {
    u32_le((body.len() + 4) as u32) + body
}

/// The wire form of a node with a magic: `[len][magic][payload]`.
pub open spec fn node(magic: u32, payload: Seq<u8>) -> Seq<u8> {
    framed(u32_le(magic) + payload)
}

/// The node that opens `rest`: as many bytes as its length header says.
pub open spec fn take_node(rest: Seq<u8>) -> Result<Seq<u8>, QtError> {
    if rest.len() < 4 {
        Err(QtError::UnexpectedEof)
    } else if (le_u32(rest.subrange(0, 4)) as int) < 4 {
        Err(QtError::InvalidValue)
    } else if rest.len() < le_u32(rest.subrange(0, 4)) {
        Err(QtError::UnexpectedEof)
    } else {
        Ok(rest.subrange(0, le_u32(rest.subrange(0, 4)) as int))
    }
}

/// The node that opens `rest`, which must open with `magic`.
pub open spec fn take_node_with_magic(rest: Seq<u8>, magic: u32) -> Result<Seq<u8>, QtError> {
    match take_node(rest) {
        Err(e) => Err(e),
        Ok(n) => if n.len() < 8 {
            Err(QtError::UnexpectedEof)
        } else if le_u32(n.subrange(4, 8)) != magic {
            Err(QtError::MagicMismatch)
        } else {
            Ok(n)
        },
    }
}

/// A growable byte buffer whose first four bytes are reserved for the length
/// header, with a read cursor. Writes append at the end.
#[derive(Debug)]
pub struct QTPacket {
    data: Vec<u8>,
    cursor: usize,
}

impl View for QTPacket {
    type V = PacketView;

    closed spec fn view(&self) -> PacketView {
        PacketView { bytes: self.data@, pos: self.cursor as nat }
    }
}

pub const PACKET_MAGIC_PING: u32 = 0x70696E67;
pub const PACKET_MAGIC_SYNC: u32 = 0x73796E63;
pub const PACKET_MAGIC_ASYN: u32 = 0x6173796E;
pub const PACKET_MAGIC_REPLY: u32 = 0x72706C79;

impl QTPacket {
    /// An empty packet: a zero header, the cursor after it.
    pub fn new() -> (r: QTPacket)
        ensures
            r@ == PacketView::fresh(Seq::empty()),
            r@.wf(),
    {
        let r = QTPacket { data: vec![0u8, 0u8, 0u8, 0u8], cursor: 4 };
        assert(r@ =~= PacketView::fresh(Seq::empty()));
        r
    }

    /// An empty packet whose body opens with `magic`.
    pub fn new_with_magic(magic: u32) -> (r: QTPacket)
        ensures
            r@ == PacketView::fresh(u32_le(magic)),
            r@.wf(),
    {
        let mut pkt = QTPacket::new();
        pkt.write_u32(magic);
        assert(pkt@.bytes =~= PacketView::fresh(u32_le(magic)).bytes);
        pkt
    }

    /// A packet over the first `u32_le(data[0..4])` bytes of `data`, cursor
    /// after the header. Fails when `data` is shorter than its header says,
    /// or the header is under four.
    pub fn from_bytes(data: &[u8]) -> (r: Result<QTPacket, QtError>)
        ensures
            data@.len() < 4 ==> r == Err::<QTPacket, QtError>(QtError::UnexpectedEof),
            data@.len() >= 4 ==> {
                let want = le_u32(data@.subrange(0, 4)) as int;
                &&& want < 4 ==> r == Err::<QTPacket, QtError>(QtError::InvalidValue)
                &&& (want >= 4 && data@.len() < want) ==> r == Err::<QTPacket, QtError>(
                    QtError::UnexpectedEof,
                )
                &&& (want >= 4 && data@.len() >= want) ==> r is Ok && r->Ok_0@ == (PacketView {
                    bytes: data@.subrange(0, want),
                    pos: 4,
                }) && r->Ok_0@.wf()
            },
    {
        if data.len() < 4 {
            return Err(QtError::UnexpectedEof);
        }
        let want = read_u32_le(data, 0) as usize;
        if want < 4 {
            return Err(QtError::InvalidValue);
        }
        if data.len() < want {
            return Err(QtError::UnexpectedEof);
        }
        let mut v: Vec<u8> = Vec::new();
        push_all(&mut v, data);
        v.truncate(want);
        assert(v@ =~= data@.subrange(0, want as int));
        Ok(QTPacket { data: v, cursor: 4 })
    }

    /// A packet over `data`, cursor at `pos`.
    pub(crate) fn from_vec_at(data: Vec<u8>, pos: usize) -> (r: QTPacket)
        requires
            4 <= data@.len(),
            pos <= data@.len(),
        ensures
            r@ == (PacketView { bytes: data@, pos: pos as nat }),
            r@.wf(),
    {
        QTPacket { data, cursor: pos }
    }

    /// How many bytes the cursor has not read yet.
    pub fn remaining(&self) -> (r: usize)
        requires
            self@.wf(),
        ensures
            r == self@.rest().len(),
    {
        self.data.len() - self.cursor
    }

    /// The position of the read cursor.
    pub fn pos(&self) -> (r: u64)
        requires
            self@.wf(),
        ensures
            r == self@.pos,
    {
        self.cursor as u64
    }

    /// The number of bytes in the buffer, header included.
    pub fn len(&self) -> (r: u64)
        requires
            self@.wf(),
        ensures
            r == self@.bytes.len(),
    {
        self.data.len() as u64
    }

    /// Moves the read cursor to `p`.
    pub fn set_pos(&mut self, p: usize)
        requires
            old(self)@.wf(),
            p <= old(self)@.bytes.len(),
        ensures
            final(self)@.wf(),
            final(self)@ == (PacketView { bytes: old(self)@.bytes, pos: p as nat }),
    {
        self.cursor = p;
    }

    pub fn write_u8(&mut self, d: u8)
        requires
            old(self)@.wf(),
        ensures
            final(self)@.wf(),
            final(self)@ == old(self)@.written(seq![d]),
            old(self)@.pos == old(self)@.bytes.len() ==> final(self)@ == (PacketView {
                bytes: old(self)@.bytes + seq![d],
                pos: old(self)@.bytes.len() + 1,
            }),
    {
        let v: Vec<u8> = vec![d];
        assert(v@ =~= seq![d]);
        self.write(v.as_slice());
    }

    pub fn write_u16(&mut self, d: u16)
        requires
            old(self)@.wf(),
        ensures
            final(self)@.wf(),
            final(self)@ == old(self)@.written(u16_le(d)),
            old(self)@.pos == old(self)@.bytes.len() ==> final(self)@ == (PacketView {
                bytes: old(self)@.bytes + u16_le(d),
                pos: old(self)@.bytes.len() + 2,
            }),
    {
        let mut v: Vec<u8> = Vec::new();
        push_u16_le(&mut v, d);
        assert(v@ =~= u16_le(d));
        self.write(v.as_slice());
    }

    pub fn write_u32(&mut self, d: u32)
        requires
            old(self)@.wf(),
        ensures
            final(self)@.wf(),
            final(self)@ == old(self)@.written(u32_le(d)),
            old(self)@.pos == old(self)@.bytes.len() ==> final(self)@ == (PacketView {
                bytes: old(self)@.bytes + u32_le(d),
                pos: old(self)@.bytes.len() + 4,
            }),
    {
        let mut v: Vec<u8> = Vec::new();
        push_u32_le(&mut v, d);
        assert(v@ =~= u32_le(d));
        self.write(v.as_slice());
    }

    /// Writes a 64-bit value; a double is written as its IEEE-754 bits.
    pub fn write_u64(&mut self, d: u64)
        requires
            old(self)@.wf(),
        ensures
            final(self)@.wf(),
            final(self)@ == old(self)@.written(u64_le(d)),
            old(self)@.pos == old(self)@.bytes.len() ==> final(self)@ == (PacketView {
                bytes: old(self)@.bytes + u64_le(d),
                pos: old(self)@.bytes.len() + 8,
            }),
    {
        let mut v: Vec<u8> = Vec::new();
        push_u64_le(&mut v, d);
        assert(v@ =~= u64_le(d));
        self.write(v.as_slice());
    }

    /// Writes `buf` at the cursor, over what is there and past the end if
    /// need be, and moves the cursor past it. Returns how many bytes were
    /// written.
    pub fn write(&mut self, buf: &[u8]) -> (r: usize)
        requires
            old(self)@.wf(),
        ensures
            final(self)@.wf(),
            final(self)@ == old(self)@.written(buf@),
            old(self)@.pos == old(self)@.bytes.len() ==> final(self)@ == (PacketView {
                bytes: old(self)@.bytes + buf@,
                pos: old(self)@.bytes.len() + buf@.len(),
            }),
            r == buf@.len(),
    {
        let ghost old_bytes = self.data@;
        let ghost pos = self.cursor as int;
        let mut i: usize = 0;
        while i < buf.len()
            invariant
                i <= buf@.len(),
                pos == self.cursor,
                pos <= old_bytes.len(),
                old_bytes == old(self)@.bytes,
                pos == old(self)@.pos,
                pos + i <= self.data@.len(),
                self.data@ == old_bytes.subrange(0, pos) + buf@.subrange(0, i as int) + if pos + i
                    < old_bytes.len() {
                    old_bytes.subrange(pos + i, old_bytes.len() as int)
                } else {
                    Seq::empty()
                },
            decreases buf@.len() - i,
        {
            let len = self.data.len();
            let at = self.cursor + i;
            if at < len {
                self.data.set(at, buf[i]);
            } else {
                self.data.push(buf[i]);
            }
            i = i + 1;
            assert(self.data@ =~= old_bytes.subrange(0, pos) + buf@.subrange(0, i as int) + if pos
                + i < old_bytes.len() {
                old_bytes.subrange(pos + i, old_bytes.len() as int)
            } else {
                Seq::empty()
            });
        }
        assert(buf@.subrange(0, buf@.len() as int) =~= buf@);
        let len = self.data.len();
        self.cursor = self.cursor + buf.len();
        proof {
            if pos == old_bytes.len() {
                assert(old_bytes.subrange(0, pos) =~= old_bytes);
                assert(self.data@ =~= old_bytes + buf@);
            }
        }
        buf.len()
    }

    pub fn read_u8(&mut self) -> (r: Result<u8, QtError>)
        requires
            old(self)@.wf(),
        ensures
            final(self)@.wf(),
            old(self)@.rest().len() >= 1 ==> r == Ok::<u8, QtError>(old(self)@.rest()[0])
                && final(self)@ == old(self)@.advanced(1),
            old(self)@.rest().len() < 1 ==> r == Err::<u8, QtError>(QtError::UnexpectedEof)
                && final(self)@ == old(self)@,
    {
        if self.cursor >= self.data.len() {
            return Err(QtError::UnexpectedEof);
        }
        let b = self.data[self.cursor];
        self.cursor = self.cursor + 1;
        Ok(b)
    }

    pub fn read_u16(&mut self) -> (r: Result<u16, QtError>)
        requires
            old(self)@.wf(),
        ensures
            final(self)@.wf(),
            old(self)@.rest().len() >= 2 ==> r == Ok::<u16, QtError>(
                le_u16(old(self)@.rest().subrange(0, 2)),
            ) && final(self)@ == old(self)@.advanced(2),
            old(self)@.rest().len() < 2 ==> r == Err::<u16, QtError>(QtError::UnexpectedEof)
                && final(self)@ == old(self)@,
    {
        if self.data.len() - self.cursor < 2 {
            return Err(QtError::UnexpectedEof);
        }
        let v = read_u16_le(self.data.as_slice(), self.cursor);
        assert(self.data@.subrange(self.cursor as int, self.cursor + 2) =~= old(self)@.rest().subrange(0, 2));
        self.cursor = self.cursor + 2;
        Ok(v)
    }

    pub fn read_u32(&mut self) -> (r: Result<u32, QtError>)
        requires
            old(self)@.wf(),
        ensures
            final(self)@.wf(),
            old(self)@.rest().len() >= 4 ==> r == Ok::<u32, QtError>(
                le_u32(old(self)@.rest().subrange(0, 4)),
            ) && final(self)@ == old(self)@.advanced(4),
            old(self)@.rest().len() < 4 ==> r == Err::<u32, QtError>(QtError::UnexpectedEof)
                && final(self)@ == old(self)@,
    {
        if self.data.len() - self.cursor < 4 {
            return Err(QtError::UnexpectedEof);
        }
        let v = read_u32_le(self.data.as_slice(), self.cursor);
        assert(self.data@.subrange(self.cursor as int, self.cursor + 4) =~= old(self)@.rest().subrange(0, 4));
        self.cursor = self.cursor + 4;
        Ok(v)
    }

    /// Reads a 64-bit value; a double is read as its IEEE-754 bits.
    pub fn read_u64(&mut self) -> (r: Result<u64, QtError>)
        requires
            old(self)@.wf(),
        ensures
            final(self)@.wf(),
            old(self)@.rest().len() >= 8 ==> r == Ok::<u64, QtError>(
                le_u64(old(self)@.rest().subrange(0, 8)),
            ) && final(self)@ == old(self)@.advanced(8),
            old(self)@.rest().len() < 8 ==> r == Err::<u64, QtError>(QtError::UnexpectedEof)
                && final(self)@ == old(self)@,
    {
        if self.data.len() - self.cursor < 8 {
            return Err(QtError::UnexpectedEof);
        }
        let v = read_u64_le(self.data.as_slice(), self.cursor);
        assert(self.data@.subrange(self.cursor as int, self.cursor + 8) =~= old(self)@.rest().subrange(0, 8));
        self.cursor = self.cursor + 8;
        Ok(v)
    }

    /// Reads exactly `n` bytes.
    pub fn read_vec(&mut self, n: usize) -> (r: Result<Vec<u8>, QtError>)
        requires
            old(self)@.wf(),
        ensures
            final(self)@.wf(),
            old(self)@.rest().len() >= n ==> r is Ok && r->Ok_0@ == old(self)@.rest().subrange(
                0,
                n as int,
            ) && final(self)@ == old(self)@.advanced(n as nat),
            old(self)@.rest().len() < n ==> r == Err::<Vec<u8>, QtError>(QtError::UnexpectedEof)
                && final(self)@ == old(self)@,
    {
        if self.data.len() - self.cursor < n {
            return Err(QtError::UnexpectedEof);
        }
        let mut out: Vec<u8> = Vec::new();
        let dl = self.data.len();
        let mut i: usize = 0;
        while i < n
            invariant
                dl == self.data@.len(),
                self.cursor + n <= self.data@.len(),
                i <= n,
                out@ == self.data@.subrange(self.cursor as int, self.cursor + i),
            decreases n - i,
        {
            out.push(self.data[self.cursor + i]);
            i = i + 1;
            assert(out@ =~= self.data@.subrange(self.cursor as int, self.cursor + i));
        }
        assert(out@ =~= old(self)@.rest().subrange(0, n as int));
        self.cursor = self.cursor + n;
        Ok(out)
    }

    /// Fills `buf` with as many unread bytes as fit; returns how many.
    pub fn read(&mut self, buf: &mut [u8]) -> (r: usize)
        requires
            old(self)@.wf(),
        ensures
            final(self)@.wf(),
            r == vstd::math::min(old(buf)@.len() as int, old(self)@.rest().len() as int),
            final(buf)@ == old(self)@.rest().subrange(0, r as int) + old(buf)@.subrange(
                r as int,
                old(buf)@.len() as int,
            ),
            final(self)@ == old(self)@.advanced(r as nat),
    {
        let avail = self.data.len() - self.cursor;
        let n = if buf.len() < avail {
            buf.len()
        } else {
            avail
        };
        let dl = self.data.len();
        let mut i: usize = 0;
        while i < n
            invariant
                dl == self.data@.len(),
                n <= buf@.len(),
                n == old(buf)@.len() || n == avail,
                buf@.len() == old(buf)@.len(),
                self.cursor + n <= self.data@.len(),
                self.data@ == old(self)@.bytes,
                self.cursor == old(self)@.pos,
                i <= n,
                buf@ == self.data@.subrange(self.cursor as int, self.cursor + i) + old(
                    buf,
                )@.subrange(i as int, old(buf)@.len() as int),
            decreases n - i,
        {
            buf[i] = self.data[self.cursor + i];
            i = i + 1;
            assert(buf@ =~= self.data@.subrange(self.cursor as int, self.cursor + i) + old(
                buf,
            )@.subrange(i as int, old(buf)@.len() as int));
        }
        assert(self.data@.subrange(self.cursor as int, self.cursor + n) =~= old(
            self,
        )@.rest().subrange(0, n as int));
        self.cursor = self.cursor + n;
        n
    }

    /// Fills all of `buf`, or fails and reads nothing.
    pub fn read_exact(&mut self, buf: &mut [u8]) -> (r: Result<(), QtError>)
        requires
            old(self)@.wf(),
        ensures
            final(self)@.wf(),
            old(self)@.rest().len() >= old(buf)@.len() ==> r is Ok && final(buf)@
                == old(self)@.rest().subrange(0, old(buf)@.len() as int) && final(self)@
                == old(self)@.advanced(old(buf)@.len()),
            old(self)@.rest().len() < old(buf)@.len() ==> r == Err::<(), QtError>(
                QtError::UnexpectedEof,
            ) && final(self)@ == old(self)@ && final(buf)@ == old(buf)@,
    {
        if self.data.len() - self.cursor < buf.len() {
            return Err(QtError::UnexpectedEof);
        }
        let n = self.read(buf);
        assert(final(buf)@ =~= old(self)@.rest().subrange(0, old(buf)@.len() as int));
        Ok(())
    }

    /// Patches the header with the total length and returns the whole
    /// packet. Fails when the length does not fit the header.
    pub fn as_bytes(&mut self) -> (r: Result<&[u8], QtError>)
        requires
            old(self)@.wf(),
        ensures
            final(self)@.wf(),
            old(self)@.bytes.len() <= u32::MAX ==> r is Ok && r->Ok_0@ == old(self)@.finalized()
                && final(self)@ == (PacketView {
                bytes: old(self)@.finalized(),
                pos: old(self)@.pos,
            }),
            old(self)@.bytes.len() > u32::MAX ==> r == Err::<&[u8], QtError>(
                QtError::InvalidValue,
            ) && final(self)@ == old(self)@,
            r is Ok ==> le_u32(r->Ok_0@.subrange(0, 4)) == r->Ok_0@.len(),
    {
        if self.data.len() > 0xffff_ffffusize {
            return Err(QtError::InvalidValue);
        }
        let n = self.data.len() as u32;
        self.data.set(0, (n & 0xff) as u8);
        self.data.set(1, ((n >> 8u32) & 0xff) as u8);
        self.data.set(2, ((n >> 16u32) & 0xff) as u8);
        self.data.set(3, ((n >> 24u32) & 0xff) as u8);
        assert(self.data@ =~= old(self)@.finalized());
        proof {
            lemma_u32_round_trip(n);
            assert(self.data@.subrange(0, 4) =~= u32_le(n));
        }
        Ok(self.data.as_slice())
    }

    /// Takes the next `size` bytes as the body of a new packet whose header
    /// gives their length; its cursor stands after the header.
    pub fn read_qt_packet(pkt: &mut QTPacket, size: usize) -> (r: Result<QTPacket, QtError>)
        requires
            old(pkt)@.wf(),
            size + 4 <= u32::MAX,
        ensures
            final(pkt)@.wf(),
            old(pkt)@.rest().len() >= size ==> r is Ok && r->Ok_0@ == (PacketView {
                bytes: u32_le((size + 4) as u32) + old(pkt)@.rest().subrange(0, size as int),
                pos: 4,
            }) && r->Ok_0@.wf() && final(pkt)@ == old(pkt)@.advanced(size as nat),
            old(pkt)@.rest().len() < size ==> r == Err::<QTPacket, QtError>(
                QtError::UnexpectedEof,
            ) && final(pkt)@ == old(pkt)@,
    {
        let body = match pkt.read_vec(size) {
            Ok(b) => b,
            Err(e) => return Err(e),
        };
        let mut data: Vec<u8> = Vec::new();
        push_u32_le(&mut data, (size + 4) as u32);
        push_all(&mut data, body.as_slice());
        Ok(QTPacket { data, cursor: 4 })
    }

    /// Takes the node under the cursor, header included, as a packet of its
    /// own with the cursor after the header. Nothing is read on failure.
    pub fn from_qt_packet(pkt: &mut QTPacket) -> (r: Result<QTPacket, QtError>)
        requires
            old(pkt)@.wf(),
        ensures
            final(pkt)@.wf(),
            match take_node(old(pkt)@.rest()) {
                Ok(n) => r is Ok && r->Ok_0@ == (PacketView { bytes: n, pos: 4 })
                    && final(pkt)@ == old(pkt)@.advanced(n.len()),
                Err(e) => r == Err::<QTPacket, QtError>(e) && final(pkt)@ == old(pkt)@,
            },
    {
        if pkt.data.len() - pkt.cursor < 4 {
            return Err(QtError::UnexpectedEof);
        }
        let want = read_u32_le(pkt.data.as_slice(), pkt.cursor) as usize;
        assert(pkt.data@.subrange(pkt.cursor as int, pkt.cursor + 4) =~= old(pkt)@.rest().subrange(0, 4));
        if want < 4 {
            return Err(QtError::InvalidValue);
        }
        if pkt.data.len() - pkt.cursor < want {
            return Err(QtError::UnexpectedEof);
        }
        let data = match pkt.read_vec(want) {
            Ok(d) => d,
            Err(e) => return Err(e),
        };
        Ok(QTPacket { data, cursor: 4 })
    }

    /// Takes the node under the cursor and reads its magic, which must be
    /// `magic`. Returns the node, cursor after the magic, and the magic.
    pub fn from_qt_packet_with_magic(pkt: &mut QTPacket, magic: u32) -> (r: Result<
        (QTPacket, u32),
        QtError,
    >)
        requires
            old(pkt)@.wf(),
        ensures
            final(pkt)@.wf(),
            match take_node_with_magic(old(pkt)@.rest(), magic) {
                Ok(n) => r is Ok && r->Ok_0.0@ == (PacketView { bytes: n, pos: 8 }) && r->Ok_0.1
                    == magic && final(pkt)@ == old(pkt)@.advanced(n.len()),
                Err(e) => r == Err::<(QTPacket, u32), QtError>(e),
            },
    {
        let (mut val_pkt, val_magic) = match pkt.read_qt_packet_with_magic() {
            Ok(e) => e,
            Err(e) => return Err(e),
        };
        if val_magic != magic {
            return Err(QtError::MagicMismatch);
        }
        Ok((val_pkt, val_magic))
    }

    /// Takes the node under the cursor and reads its magic. Returns the node,
    /// cursor after the magic, and the magic.
    pub fn read_qt_packet_with_magic(&mut self) -> (r: Result<(QTPacket, u32), QtError>)
        requires
            old(self)@.wf(),
        ensures
            final(self)@.wf(),
            match take_node(old(self)@.rest()) {
                Ok(n) => if n.len() < 8 {
                    r == Err::<(QTPacket, u32), QtError>(QtError::UnexpectedEof)
                } else {
                    r is Ok && r->Ok_0.0@ == (PacketView { bytes: n, pos: 8 }) && r->Ok_0.1
                        == le_u32(n.subrange(4, 8)) && final(self)@ == old(self)@.advanced(
                        n.len(),
                    )
                },
                Err(e) => r == Err::<(QTPacket, u32), QtError>(e),
            },
    {
        let mut p = match QTPacket::from_qt_packet(self) {
            Ok(e) => e,
            Err(e) => return Err(e),
        };
        let ghost before = p@;
        let magic = match p.read_u32() {
            Ok(e) => e,
            Err(e) => return Err(e),
        };
        proof {
            assert(p@.bytes.subrange(4, 8) =~= before.rest().subrange(0, 4));
        }
        Ok((p, magic))
    }
}

pub const SYNC_PACKET_MAGIC_OG: u32 = 0x676F2120;
pub const SYNC_PACKET_MAGIC_STOP: u32 = 0x73746F70;
pub const SYNC_PACKET_MAGIC_SKEW: u32 = 0x736B6577;
pub const SYNC_PACKET_MAGIC_AFMT: u32 = 0x61666D74;
pub const SYNC_PACKET_MAGIC_TIME: u32 = 0x74696D65;
pub const SYNC_PACKET_MAGIC_CLOK: u32 = 0x636C6F6B;
pub const SYNC_PACKET_MAGIC_CVRP: u32 = 0x63767270;
pub const SYNC_PACKET_MAGIC_CWPA: u32 = 0x63777061;

pub const ASYN_PACKET_MAGIC_EAT: u32 = 0x65617421;
pub const ASYN_PACKET_MAGIC_FEED: u32 = 0x66656564;
pub const ASYN_PACKET_MAGIC_SPRP: u32 = 0x73707270;
pub const ASYN_PACKET_MAGIC_TJMP: u32 = 0x746A6D70;
pub const ASYN_PACKET_MAGIC_SRAT: u32 = 0x73726174;
pub const ASYN_PACKET_MAGIC_TBAS: u32 = 0x74626173;
pub const ASYN_PACKET_MAGIC_RELS: u32 = 0x72656C73;

/// The body of every SYNC reply opens with 'rply', the correlation id and a
/// four-byte zero pad.
pub open spec fn reply_head(correlation_id: u64) -> Seq<u8> {
    u32_le(PACKET_MAGIC_REPLY) + u64_le(correlation_id) + u32_le(0)
}

/// The body of an ASYN packet: its header, its sub-type and its payload.
pub open spec fn asyn_body(type_header: u64, sub_type_mark: u32, payload: Seq<u8>) -> Seq<u8> {
    u32_le(PACKET_MAGIC_ASYN) + u64_le(type_header) + u32_le(sub_type_mark) + payload
}

/// A reply with no type-specific body yet.
pub fn reply_packet(correlation_id: u64) -> (r: QTPacket)
    ensures
        r@ == PacketView::fresh(reply_head(correlation_id)),
        r@.wf(),
{
    let mut pkt = QTPacket::new();
    pkt.write_u32(PACKET_MAGIC_REPLY);
    pkt.write_u64(correlation_id);
    pkt.write_u32(0);
    assert(pkt@.bytes =~= PacketView::fresh(reply_head(correlation_id)).bytes);
    pkt
}

/// A reply whose body is a clock reference.
pub fn reply_packet_with_clock_ref(correlation_id: u64, clock_ref: u64) -> (r: QTPacket)
    ensures
        r@ == PacketView::fresh(reply_head(correlation_id) + u64_le(clock_ref)),
        r@.wf(),
{
    let mut pkt = reply_packet(correlation_id);
    pkt.write_u64(clock_ref);
    assert(pkt@.bytes =~= PacketView::fresh(reply_head(correlation_id) + u64_le(clock_ref)).bytes);
    pkt
}

/// A ping: its header is echoed back.
pub struct QTPacketPing {
    pub header: u64,
}

impl QTPacketPing {
    /// A ping packet with the given header.
    pub fn new(header: u64) -> (r: QTPacket)
        ensures
            r@ == PacketView::fresh(u32_le(PACKET_MAGIC_PING) + u64_le(header)),
            r@.wf(),
    {
        let mut pkt = QTPacket::new();
        pkt.write_u32(PACKET_MAGIC_PING);
        pkt.write_u64(header);
        assert(pkt@.bytes =~= PacketView::fresh(u32_le(PACKET_MAGIC_PING) + u64_le(header)).bytes);
        pkt
    }

    /// Reads the header of a ping at the cursor.
    pub fn from_packet(pkt: &mut QTPacket) -> (r: Result<QTPacketPing, QtError>)
        requires
            old(pkt)@.wf(),
        ensures
            final(pkt)@.wf(),
            old(pkt)@.rest().len() >= 8 ==> r is Ok && r->Ok_0.header == le_u64(
                old(pkt)@.rest().subrange(0, 8),
            ),
            old(pkt)@.rest().len() < 8 ==> r == Err::<QTPacketPing, QtError>(
                QtError::UnexpectedEof,
            ),
    {
        match pkt.read_u64() {
            Ok(header) => Ok(QTPacketPing { header }),
            Err(e) => Err(e),
        }
    }
}

/// 'cwpa': the device announces its audio clock.
pub struct QTPacketCWPA {
    pub device_clock_ref: u64,
}

impl QTPacketCWPA {
    pub fn device_clock_ref(&self) -> (r: u64)
        ensures
            r == self.device_clock_ref,
    {
        self.device_clock_ref
    }

    /// Reads the device clock reference at the cursor.
    pub fn from_packet(pkt: &mut QTPacket) -> (r: Result<QTPacketCWPA, QtError>)
        requires
            old(pkt)@.wf(),
        ensures
            final(pkt)@.wf(),
            old(pkt)@.rest().len() >= 8 ==> r is Ok && r->Ok_0.device_clock_ref == le_u64(
                old(pkt)@.rest().subrange(0, 8),
            ) && final(pkt)@ == old(pkt)@.advanced(8),
            old(pkt)@.rest().len() < 8 ==> r == Err::<QTPacketCWPA, QtError>(
                QtError::UnexpectedEof,
            ),
    {
        match pkt.read_u64() {
            Ok(device_clock_ref) => Ok(QTPacketCWPA { device_clock_ref }),
            Err(e) => Err(e),
        }
    }

    pub fn reply_packet(&self, correlation_id: u64, clock_ref: u64) -> (r: QTPacket)
        ensures
            r@ == PacketView::fresh(reply_head(correlation_id) + u64_le(clock_ref)),
            r@.wf(),
    {
        reply_packet_with_clock_ref(correlation_id, clock_ref)
    }
}

/// An ASYN packet from the host: a sub-type, a header and an optional value.
pub struct QTPacketASYN {
    pub sub_type_mark: u32,
    pub type_header: u64,
    pub qt_value: Option<QTValue>,
}

/// The payload bytes of an optional value.
pub open spec fn optional_value_bytes(v: Option<QTValue>) -> Seq<u8> {
    match v {
        Some(x) => encode_value(x@),
        None => Seq::empty(),
    }
}

/// Whether an optional value can be written.
pub open spec fn optional_value_writable(v: Option<QTValue>) -> bool {
    match v {
        Some(x) => encodable(x@) && encode_value(x@).len() <= u32::MAX,
        None => true,
    }
}

impl QTPacketASYN {
    pub fn new(qt_value: Option<QTValue>, sub_type_mark: u32, type_header: u64) -> (r: QTPacketASYN)
        ensures
            r.qt_value == qt_value,
            r.sub_type_mark == sub_type_mark,
            r.type_header == type_header,
    {
        QTPacketASYN { sub_type_mark, type_header, qt_value }
    }

    /// The packet: 'asyn', the header, the sub-type, then the value's node.
    /// Fails when the value cannot be written.
    pub fn as_qt_packet(&self) -> (r: Result<QTPacket, QtError>)
        ensures
            optional_value_writable(self.qt_value) ==> r is Ok && r->Ok_0@ == PacketView::fresh(
                asyn_body(self.type_header, self.sub_type_mark, optional_value_bytes(self.qt_value)),
            ) && r->Ok_0@.wf(),
            !optional_value_writable(self.qt_value) ==> r is Err,
    {
        let mut pkt = QTPacket::new();
        pkt.write_u32(PACKET_MAGIC_ASYN);
        pkt.write_u64(self.type_header);
        pkt.write_u32(self.sub_type_mark);
        match &self.qt_value {
            Some(v) => {
                let b = match v.encode() {
                    Ok(b) => b,
                    Err(e) => return Err(e),
                };
                pkt.write(b.as_slice());
            },
            None => {},
        }
        assert(pkt@.bytes =~= PacketView::fresh(
            asyn_body(self.type_header, self.sub_type_mark, optional_value_bytes(self.qt_value)),
        ).bytes);
        Ok(pkt)
    }
}

/// 'go! ': the device asks the host to start.
pub struct QTPacketOG {
    pub unknown: u32,
}

impl QTPacketOG {
    /// Reads the four bytes that follow the magic.
    pub fn from_packet(pkt: &mut QTPacket) -> (r: Result<QTPacketOG, QtError>)
        requires
            old(pkt)@.wf(),
        ensures
            final(pkt)@.wf(),
            old(pkt)@.rest().len() >= 4 ==> r is Ok && r->Ok_0.unknown == le_u32(
                old(pkt)@.rest().subrange(0, 4),
            ),
            old(pkt)@.rest().len() < 4 ==> r == Err::<QTPacketOG, QtError>(
                QtError::UnexpectedEof,
            ),
    {
        match pkt.read_u32() {
            Ok(unknown) => Ok(QTPacketOG { unknown }),
            Err(e) => Err(e),
        }
    }

    /// The reply: the reply head, then four zero bytes.
    pub fn reply_packet(&self, correlation_id: u64) -> (r: QTPacket)
        ensures
            r@ == PacketView::fresh(reply_head(correlation_id) + u32_le(0)),
            r@.wf(),
    {
        let mut pkt = reply_packet(correlation_id);
        pkt.write_u32(0);
        assert(pkt@.bytes =~= PacketView::fresh(reply_head(correlation_id) + u32_le(0)).bytes);
        pkt
    }
}

/// 'cvrp': the device announces its video clock, with a value payload.
pub struct QTPacketCVRP {
    pub device_clock_ref: u64,
    pub payload: QTValue,
}

impl QTPacketCVRP {
    pub fn device_clock_ref(&self) -> (r: u64)
        ensures
            r == self.device_clock_ref,
    {
        self.device_clock_ref
    }

    pub fn payload(&self) -> (r: &QTValue)
        ensures
            *r == self.payload,
    {
        &self.payload
    }

    /// Reads the device clock reference and the value that follows it.
    pub fn from_packet(pkt: &mut QTPacket) -> (r: Result<QTPacketCVRP, QtError>)
        requires
            old(pkt)@.wf(),
        ensures
            final(pkt)@.wf(),
            old(pkt)@.rest().len() < 8 ==> r == Err::<QTPacketCVRP, QtError>(
                QtError::UnexpectedEof,
            ),
            old(pkt)@.rest().len() >= 8 ==> match parse_value(
                old(pkt)@.rest().subrange(8, old(pkt)@.rest().len() as int),
            ) {
                Ok((v, _)) => r is Ok && r->Ok_0.device_clock_ref == le_u64(
                    old(pkt)@.rest().subrange(0, 8),
                ) && r->Ok_0.payload@ == v,
                Err(e) => r == Err::<QTPacketCVRP, QtError>(e),
            },
    {
        let ghost b = pkt@.rest();
        let device_clock_ref = match pkt.read_u64() {
            Ok(m) => m,
            Err(e) => return Err(e),
        };
        assert(pkt@.rest() =~= b.subrange(8, b.len() as int));
        let payload = match QTValue::from_qt_packet(pkt) {
            Ok(v) => v,
            Err(e) => return Err(e),
        };
        Ok(QTPacketCVRP { device_clock_ref, payload })
    }

    pub fn reply_packet(&self, correlation_id: u64, clock_ref: u64) -> (r: QTPacket)
        ensures
            r@ == PacketView::fresh(reply_head(correlation_id) + u64_le(clock_ref)),
            r@.wf(),
    {
        reply_packet_with_clock_ref(correlation_id, clock_ref)
    }
}

/// 'clok': the device asks for a host clock.
pub struct QTPacketCLOCK {}

impl QTPacketCLOCK {
    pub fn new() -> (r: QTPacketCLOCK) {
        QTPacketCLOCK {  }
    }

    pub fn reply_packet(&self, correlation_id: u64, clock_ref: u64) -> (r: QTPacket)
        ensures
            r@ == PacketView::fresh(reply_head(correlation_id) + u64_le(clock_ref)),
            r@.wf(),
    {
        reply_packet_with_clock_ref(correlation_id, clock_ref)
    }
}

/// 'time': the device asks for the host clock's time.
pub struct QTPacketTIME {}

impl QTPacketTIME {
    pub fn new() -> (r: QTPacketTIME) {
        QTPacketTIME {  }
    }

    /// The reply: the reply head, then the 24 bytes of `t`.
    pub fn reply_packet(&self, correlation_id: u64, t: Time) -> (r: QTPacket)
        ensures
            r@ == PacketView::fresh(reply_head(correlation_id) + time_bytes(t)),
            r@.wf(),
    {
        let mut pkt = reply_packet(correlation_id);
        let b = t.as_bytes();
        pkt.write(b.as_slice());
        assert(pkt@.bytes =~= PacketView::fresh(reply_head(correlation_id) + time_bytes(t)).bytes);
        pkt
    }
}

/// 'skew': the device asks for the skew of its audio clock.
pub struct QTPacketSKEW {}

impl QTPacketSKEW {
    pub fn new() -> (r: QTPacketSKEW) {
        QTPacketSKEW {  }
    }

    /// The reply: the reply head, then the skew as the bits of a double.
    pub fn reply_packet(&self, correlation_id: u64, skew: u64) -> (r: QTPacket)
        ensures
            r@ == PacketView::fresh(reply_head(correlation_id) + u64_le(skew)),
            r@.wf(),
    {
        reply_packet_with_clock_ref(correlation_id, skew)
    }
}

/// 'stop': the device stops the stream.
pub struct QTPacketSTOP {}

impl QTPacketSTOP {
    pub fn new() -> (r: QTPacketSTOP) {
        QTPacketSTOP {  }
    }

    /// The reply: the reply head, then four zero bytes.
    pub fn reply_packet(&self, correlation_id: u64) -> (r: QTPacket)
        ensures
            r@ == PacketView::fresh(reply_head(correlation_id) + u32_le(0)),
            r@.wf(),
    {
        let mut pkt = reply_packet(correlation_id);
        pkt.write_u32(0);
        assert(pkt@.bytes =~= PacketView::fresh(reply_head(correlation_id) + u32_le(0)).bytes);
        pkt
    }
}

/// 'afmt': the device announces its audio format.
pub struct QTPacketAFMT {
    pub audio_desc: AudioStreamDescription,
}

impl QTPacketAFMT {
    /// Reads the stream description at the cursor.
    pub fn from_packet(pkt: &mut QTPacket) -> (r: Result<QTPacketAFMT, QtError>)
        requires
            old(pkt)@.wf(),
        ensures
            final(pkt)@.wf(),
            match parse_asbd(old(pkt)@.rest()) {
                Ok(a) => r is Ok && r->Ok_0.audio_desc@ == a,
                Err(e) => r == Err::<QTPacketAFMT, QtError>(e),
            },
    {
        match AudioStreamDescription::from_qt_packet(pkt) {
            Ok(audio_desc) => Ok(QTPacketAFMT { audio_desc }),
            Err(e) => Err(e),
        }
    }

    /// The reply: the reply head, then the dictionary {"Error": UInt32(0)}.
    pub fn reply_packet(&self, correlation_id: u64) -> (r: QTPacket)
        ensures
            r@ == PacketView::fresh(
                reply_head(correlation_id) + encode_value(crate::qt_device::afmt_reply_model()),
            ),
            r@.wf(),
    {
        let mut pkt = reply_packet(correlation_id);
        let v = crate::qt_device::afmt_reply_value();
        proof {
            crate::qt_device::lemma_afmt_reply_writable();
        }
        let b = match v.encode() {
            Ok(b) => b,
            Err(_) => {
                assert(false);
                Vec::new()
            },
        };
        pkt.write(b.as_slice());
        assert(pkt@.bytes =~= PacketView::fresh(
            reply_head(correlation_id) + encode_value(crate::qt_device::afmt_reply_model()),
        ).bytes);
        pkt
    }
}

} // verus!
