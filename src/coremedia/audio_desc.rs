//! The audio stream description of a sound format.
use crate::bytes::{push_u32_le, push_u64_le};
use crate::error::QtError;
use crate::qt_pkt::QTPacket;
use crate::wire::{asbd_bytes, lemma_asbd_round_trip, parse_asbd, AsbdModel};
use vstd::prelude::*;

verus! {

pub const AUDIO_FORMAT_ID_LPCM: u32 = 0x6C70636D;

/// The bit pattern of the double 48000.0.
pub const SAMPLE_RATE_48K: u64 = 0x40E7_7000_0000_0000;

/// An audio stream description. The sample rate is held as the bit pattern
/// of an IEEE-754 double.
#[derive(Clone, Copy, Debug, PartialEq, Eq, Structural)]
pub struct AudioStreamDescription {
    pub sample_rate: u64,
    pub format_id: u32,
    pub format_flags: u32,
    pub bytes_per_packet: u32,
    pub frames_per_packet: u32,
    pub bytes_per_frame: u32,
    pub channels_per_frame: u32,
    pub bits_per_channel: u32,
    pub reserved: u32,
}

impl View for AudioStreamDescription {
    type V = AsbdModel;

    open spec fn view(&self) -> AsbdModel {
        AsbdModel {
            sample_rate: self.sample_rate,
            format_id: self.format_id,
            format_flags: self.format_flags,
            bytes_per_packet: self.bytes_per_packet,
            frames_per_packet: self.frames_per_packet,
            bytes_per_frame: self.bytes_per_frame,
            channels_per_frame: self.channels_per_frame,
            bits_per_channel: self.bits_per_channel,
            reserved: self.reserved,
        }
    }
}

/// Parsing the container bytes of a description gives it back; the two
/// trailing copies of the sample rate are not read.
pub proof fn lemma_audio_round_trip(a: AudioStreamDescription)
    ensures
        parse_asbd(asbd_bytes(a@)) == Ok::<AsbdModel, QtError>(a@),
{
    lemma_asbd_round_trip(a@);
}

/// The format the host advertises: 48 kHz LPCM, two channels of 16 bits.
pub open spec fn default_asbd() -> AudioStreamDescription {
    AudioStreamDescription {
        sample_rate: SAMPLE_RATE_48K,
        format_id: AUDIO_FORMAT_ID_LPCM,
        format_flags: 12,
        bytes_per_packet: 1,
        frames_per_packet: 1,
        bytes_per_frame: 4,
        channels_per_frame: 2,
        bits_per_channel: 16,
        reserved: 0,
    }
}

impl AudioStreamDescription {
    pub fn new(
        sample_rate: u64,
        format_id: u32,
        format_flags: u32,
        bytes_per_packet: u32,
        frames_per_packet: u32,
        bytes_per_frame: u32,
        channels_per_frame: u32,
        bits_per_channel: u32,
    ) -> (r: AudioStreamDescription)
        ensures
            r == (AudioStreamDescription {
                sample_rate,
                format_id,
                format_flags,
                bytes_per_packet,
                frames_per_packet,
                bytes_per_frame,
                channels_per_frame,
                bits_per_channel,
                reserved: 0,
            }),
    {
        AudioStreamDescription {
            sample_rate,
            format_id,
            format_flags,
            bytes_per_packet,
            frames_per_packet,
            bytes_per_frame,
            channels_per_frame,
            bits_per_channel,
            reserved: 0,
        }
    }

    /// The format the host advertises: 48 kHz LPCM, two channels of 16 bits.
    pub fn default() -> (r: AudioStreamDescription)
        ensures
            r == default_asbd(),
    {
        AudioStreamDescription {
            sample_rate: SAMPLE_RATE_48K,
            format_id: AUDIO_FORMAT_ID_LPCM,
            format_flags: 12,
            bytes_per_packet: 1,
            frames_per_packet: 1,
            bytes_per_frame: 4,
            channels_per_frame: 2,
            bits_per_channel: 16,
            reserved: 0,
        }
    }

    /// Reads the 40 bytes of a description at the cursor.
    pub fn from_qt_packet(pkt: &mut QTPacket) -> (r: Result<AudioStreamDescription, QtError>)
        requires
            old(pkt)@.wf(),
        ensures
            final(pkt)@.wf(),
            match parse_asbd(old(pkt)@.rest()) {
                Ok(a) => r is Ok && r->Ok_0@ == a && final(pkt)@ == old(pkt)@.advanced(40),
                Err(e) => r == Err::<AudioStreamDescription, QtError>(e),
            },
    {
        let data = match pkt.read_vec(40) {
            Ok(d) => d,
            Err(e) => return Err(e),
        };
        let b = data.as_slice();
        let r = AudioStreamDescription {
            sample_rate: crate::bytes::read_u64_le(b, 0),
            format_id: crate::bytes::read_u32_le(b, 8),
            format_flags: crate::bytes::read_u32_le(b, 12),
            bytes_per_packet: crate::bytes::read_u32_le(b, 16),
            frames_per_packet: crate::bytes::read_u32_le(b, 20),
            bytes_per_frame: crate::bytes::read_u32_le(b, 24),
            channels_per_frame: crate::bytes::read_u32_le(b, 28),
            bits_per_channel: crate::bytes::read_u32_le(b, 32),
            reserved: crate::bytes::read_u32_le(b, 36),
        };
        proof {
            let rest = old(pkt)@.rest();
            assert forall|i: int, j: int| 0 <= i <= j <= 40 implies #[trigger] b@.subrange(i, j)
                =~= rest.subrange(i, j) by {}
        }
        Ok(r)
    }

    /// The container form: the fields, then the sample rate twice more.
    pub fn as_buffer(&self) -> (r: Vec<u8>)
        ensures
            r@ == asbd_bytes(self@),
    {
        let mut buffer: Vec<u8> = Vec::new();
        push_u64_le(&mut buffer, self.sample_rate);
        push_u32_le(&mut buffer, self.format_id);
        push_u32_le(&mut buffer, self.format_flags);
        push_u32_le(&mut buffer, self.bytes_per_packet);
        push_u32_le(&mut buffer, self.frames_per_packet);
        push_u32_le(&mut buffer, self.bytes_per_frame);
        push_u32_le(&mut buffer, self.channels_per_frame);
        push_u32_le(&mut buffer, self.bits_per_channel);
        push_u32_le(&mut buffer, self.reserved);
        push_u64_le(&mut buffer, self.sample_rate);
        push_u64_le(&mut buffer, self.sample_rate);
        assert(buffer@ =~= asbd_bytes(self@));
        buffer
    }
}

} // verus!
