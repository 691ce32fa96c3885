//! A CoreMedia time: a rational value with flags and an epoch.
use crate::bytes::{le_u32, le_u64, lemma_u32_round_trip, lemma_u64_round_trip, u32_le, u64_le};
use crate::error::QtError;
use crate::qt_pkt::QTPacket;
use vstd::prelude::*;

verus! {

pub const KCM_TIME_FLAGS_VALID: u32 = 0x0;
pub const KCM_TIME_FLAGS_HAS_BEEN_ROUNDED: u32 = 0x1;
pub const KCM_TIME_FLAGS_POSITIVE_INFINITY: u32 = 0x2;
pub const KCM_TIME_FLAGS_NEGATIVE_INFINITY: u32 = 0x4;
pub const KCM_TIME_FLAGS_INDEFINITE: u32 = 0x8;

/// The number of bytes of a time on the wire.
pub const TIME_LENGTH_IN_BYTES: usize = 24;

/// `value / scale` seconds, with flags and an epoch.
#[derive(Clone, Copy, Debug, PartialEq, Eq, Structural)]
pub struct Time {
    pub value: u64,
    pub scale: u32,
    pub flags: u32,
    pub epoch: u64,
}

/// The 24 wire bytes of a time.
pub open spec fn time_bytes(t: Time) -> Seq<u8> {
    u64_le(t.value) + u32_le(t.scale) + u32_le(t.flags) + u64_le(t.epoch)
}

/// The time that the first 24 bytes of `b` hold.
pub open spec fn parse_time(b: Seq<u8>) -> Result<Time, QtError> {
    if b.len() < 24 {
        Err(QtError::UnexpectedEof)
    } else {
        Ok(
            Time {
                value: le_u64(b.subrange(0, 8)),
                scale: le_u32(b.subrange(8, 12)),
                flags: le_u32(b.subrange(12, 16)),
                epoch: le_u64(b.subrange(16, 24)),
            },
        )
    }
}

/// Parsing the bytes of a time gives the time back.
pub proof fn lemma_time_round_trip(t: Time)
    ensures
        parse_time(time_bytes(t)) == Ok::<Time, QtError>(t),
{
    let b = time_bytes(t);
    assert(b.subrange(0, 8) =~= u64_le(t.value));
    assert(b.subrange(8, 12) =~= u32_le(t.scale));
    assert(b.subrange(12, 16) =~= u32_le(t.flags));
    assert(b.subrange(16, 24) =~= u64_le(t.epoch));
    lemma_u64_round_trip(t.value);
    lemma_u32_round_trip(t.scale);
    lemma_u32_round_trip(t.flags);
    lemma_u64_round_trip(t.epoch);
}

impl Time {
    pub fn new(value: u64, scale: u32, flags: u32, epoch: u64) -> (r: Time)
        ensures
            r == (Time { value, scale, flags, epoch }),
    {
        Time { value, scale, flags, epoch }
    }

    pub fn value(&self) -> (r: u64)
        ensures
            r == self.value,
    {
        self.value
    }

    pub fn scale(&self) -> (r: u32)
        ensures
            r == self.scale,
    {
        self.scale
    }

    pub fn flags(&self) -> (r: u32)
        ensures
            r == self.flags,
    {
        self.flags
    }

    pub fn epoch(&self) -> (r: u64)
        ensures
            r == self.epoch,
    {
        self.epoch
    }

    /// Whole seconds: `value / scale`, and zero for a zero value.
    pub fn seconds(&self) -> (r: u64)
        requires
            self.value == 0 || self.scale != 0,
        ensures
            r == if self.value == 0 {
                0
            } else {
                self.value / (self.scale as u64)
            },
    {
        if self.value == 0 {
            0
        } else {
            self.value / (self.scale as u64)
        }
    }

    /// Reads a time at the cursor.
    pub fn from_qt_packet(pkt: &mut QTPacket) -> (r: Result<Time, QtError>)
        requires
            old(pkt)@.wf(),
        ensures
            final(pkt)@.wf(),
            r == parse_time(old(pkt)@.rest()),
            r is Ok ==> final(pkt)@ == old(pkt)@.advanced(24),
    {
        let ghost rest = pkt@.rest();
        let value = match pkt.read_u64() {
            Ok(v) => v,
            Err(e) => return Err(e),
        };
        assert(pkt@.rest() =~= rest.subrange(8, rest.len() as int));
        let scale = match pkt.read_u32() {
            Ok(v) => v,
            Err(e) => return Err(e),
        };
        assert(pkt@.rest() =~= rest.subrange(12, rest.len() as int));
        let flags = match pkt.read_u32() {
            Ok(v) => v,
            Err(e) => return Err(e),
        };
        assert(pkt@.rest() =~= rest.subrange(16, rest.len() as int));
        let epoch = match pkt.read_u64() {
            Ok(v) => v,
            Err(e) => return Err(e),
        };
        assert(rest.subrange(8, rest.len() as int).subrange(0, 4) =~= rest.subrange(8, 12));
        assert(rest.subrange(12, rest.len() as int).subrange(0, 4) =~= rest.subrange(12, 16));
        assert(rest.subrange(16, rest.len() as int).subrange(0, 8) =~= rest.subrange(16, 24));
        Ok(Time { value, scale, flags, epoch })
    }

    /// The 24 wire bytes of this time.
    pub fn as_bytes(&self) -> (r: Vec<u8>)
        ensures
            r@ == time_bytes(*self),
    {
        let mut buffer: Vec<u8> = Vec::new();
        crate::bytes::push_u64_le(&mut buffer, self.value);
        crate::bytes::push_u32_le(&mut buffer, self.scale);
        crate::bytes::push_u32_le(&mut buffer, self.flags);
        crate::bytes::push_u64_le(&mut buffer, self.epoch);
        assert(buffer@ =~= time_bytes(*self));
        buffer
    }
}

} // verus!
