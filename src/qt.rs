//! The protocol state machine: it classifies each packet from the device,
//! answers it, keeps the clocks, and hands sample buffers on. It does no I/O:
//! each step returns the actions for the caller to carry out.
use crate::bytes::{le_u32, le_u64, read_u32_le, read_u64_le, u32_le, u64_le};
use crate::coremedia::clock::{time_at, Clock, NANO_SECOND_SCALE};
use crate::coremedia::sample::{parse_sample, SampleBuffer, SampleModel};
use crate::coremedia::time::{time_bytes, Time};
use crate::error::QtError;
use crate::qt_device::{
    afmt_reply_model, hpa1_model, hpd1_model, lemma_hpa1_writable, lemma_hpd1_writable,
    qt_hpa1_device_info, qt_hpd1_device_info,
};
use crate::qt_pkt::{
    asyn_body, framed, reply_head, PacketView, QTPacket, QTPacketAFMT, QTPacketASYN,
    QTPacketCLOCK, QTPacketCVRP, QTPacketCWPA, QTPacketOG, QTPacketSTOP, QTPacketTIME,
    ASYN_PACKET_MAGIC_EAT, ASYN_PACKET_MAGIC_FEED, PACKET_MAGIC_ASYN, PACKET_MAGIC_PING,
    PACKET_MAGIC_REPLY, PACKET_MAGIC_SYNC, SYNC_PACKET_MAGIC_AFMT, SYNC_PACKET_MAGIC_CLOK,
    SYNC_PACKET_MAGIC_CVRP, SYNC_PACKET_MAGIC_CWPA, SYNC_PACKET_MAGIC_OG,
    SYNC_PACKET_MAGIC_SKEW, SYNC_PACKET_MAGIC_STOP, SYNC_PACKET_MAGIC_TIME,
};
use crate::wire::{encode_value, parse_asbd, parse_value, MEDIA_TYPE_SOUND, MEDIA_TYPE_VIDEO};
use vstd::prelude::*;

verus! {

pub const HPD1: u32 = 0x68706431;
pub const HPA1: u32 = 0x68706131;
pub const HPD0: u32 = 0x68706430;
pub const HPA0: u32 = 0x68706130;
pub const NEED: u32 = 0x6E656564;
pub const EMPTY_CF_TYPE: u64 = 1;

/// Added to the device's audio clock reference to name the host audio clock.
pub const LOCAL_AUDIO_CLOCK_OFFSET: u64 = 1000;
/// Added to the device's video clock reference in the 'cvrp' reply.
pub const CVRP_CLOCK_OFFSET: u64 = 0x1000AF;
/// Added to the clock reference of a 'clok' request to name the host clock.
pub const HOST_CLOCK_OFFSET: u64 = 0x10000;

/// `a + b`, wrapping around.
pub open spec fn wrap_add(a: u64, b: u64) -> u64 {
    if a + b > u64::MAX {
        (a + b - u64::MAX - 1) as u64
    } else {
        (a + b) as u64
    }
}

/// What the caller has to do after a step.
#[derive(Debug)]
pub enum Action {
    /// Write these bytes to the device.
    Write(Vec<u8>),
    /// Hand this sample buffer to the consumer.
    Deliver(SampleBuffer),
    /// Compute the skew of the device audio clock from these four times and
    /// answer with `QTPacketSKEW::reply_packet`.
    Skew {
        correlation_id: u64,
        start_local: Time,
        last_local: Time,
        start_device: Time,
        last_device: Time,
    },
}

pub ghost enum ActionModel {
    Write(Seq<u8>),
    Deliver(SampleModel),
    Skew(u64, Time, Time, Time, Time),
}

impl View for Action {
    type V = ActionModel;

    open spec fn view(&self) -> ActionModel {
        match self {
            Action::Write(b) => ActionModel::Write(b@),
            Action::Deliver(s) => ActionModel::Deliver(s@),
            Action::Skew { correlation_id, start_local, last_local, start_device, last_device } =>
                ActionModel::Skew(
                *correlation_id,
                *start_local,
                *last_local,
                *start_device,
                *last_device,
            ),
        }
    }
}

/// The protocol state of one session.
#[derive(Clone, Copy, Debug, PartialEq, Eq, Structural)]
pub struct QuickTime {
    pub clock: Option<Clock>,
    pub need_clock_ref: Option<u64>,
    pub local_audio_clock: Option<Clock>,
    pub device_audio_clock: Option<u64>,
    pub start_time_local_audio_clock: Option<Time>,
    pub last_eat_frame_received_local_audio_clock: Option<Time>,
    pub start_time_device_audio_clock: Option<Time>,
    pub last_eat_frame_received_device_audio_clock: Option<Time>,
}

/// The wire bytes of a host ASYN packet.
pub open spec fn asyn_bytes(type_header: u64, sub_type: u32, payload: Seq<u8>) -> Seq<u8> {
    framed(asyn_body(type_header, sub_type, payload))
}

/// The answer to a SYNC packet with clock reference `clock_ref`, inner
/// magic `magic`, correlation id `corr` and body `body`.
pub open spec fn sync_step(
    s: QuickTime,
    clock_ref: u64,
    magic: u32,
    corr: u64,
    body: Seq<u8>,
    now: u64,
) -> Result<(QuickTime, Seq<ActionModel>), QtError> {
    if magic == SYNC_PACKET_MAGIC_OG {
        if body.len() < 4 {
            Err(QtError::UnexpectedEof)
        } else {
            Ok((s, seq![ActionModel::Write(framed(reply_head(corr) + u32_le(0)))]))
        }
    } else if magic == SYNC_PACKET_MAGIC_CWPA {
        if body.len() < 8 {
            Err(QtError::UnexpectedEof)
        } else {
            let dcr = le_u64(body.subrange(0, 8));
            let local = wrap_add(dcr, LOCAL_AUDIO_CLOCK_OFFSET);
            let hpd1 = asyn_bytes(EMPTY_CF_TYPE, HPD1, encode_value(hpd1_model()));
            Ok(
                (
                    QuickTime {
                        local_audio_clock: Some(Clock { id: local, time_scale: NANO_SECOND_SCALE, epoch_ns: now }),
                        device_audio_clock: Some(dcr),
                        ..s
                    },
                    seq![
                        ActionModel::Write(hpd1),
                        ActionModel::Write(framed(reply_head(corr) + u64_le(local) + hpd1)),
                        ActionModel::Write(asyn_bytes(dcr, HPA1, encode_value(hpa1_model()))),
                    ],
                ),
            )
        }
    } else if magic == SYNC_PACKET_MAGIC_CVRP {
        if body.len() < 8 {
            Err(QtError::UnexpectedEof)
        } else {
            match parse_value(body.subrange(8, body.len() as int)) {
                Err(e) => Err(e),
                Ok(_) => {
                    let dcr = le_u64(body.subrange(0, 8));
                    Ok(
                        (
                            QuickTime { need_clock_ref: Some(dcr), ..s },
                            seq![
                                ActionModel::Write(asyn_bytes(dcr, NEED, Seq::empty())),
                                ActionModel::Write(
                                    framed(
                                        reply_head(corr) + u64_le(wrap_add(dcr, CVRP_CLOCK_OFFSET)),
                                    ),
                                ),
                            ],
                        ),
                    )
                },
            }
        }
    } else if magic == SYNC_PACKET_MAGIC_CLOK {
        let host_time = wrap_add(clock_ref, HOST_CLOCK_OFFSET);
        Ok(
            (
                QuickTime { clock: Some(Clock { id: host_time, time_scale: NANO_SECOND_SCALE, epoch_ns: now }), ..s },
                seq![ActionModel::Write(framed(reply_head(corr) + u64_le(host_time)))],
            ),
        )
    } else if magic == SYNC_PACKET_MAGIC_TIME {
        match s.clock {
            None => Err(QtError::Protocol),
            Some(c) => Ok(
                (s, seq![ActionModel::Write(framed(reply_head(corr) + time_bytes(time_at(c, now))))]),
            ),
        }
    } else if magic == SYNC_PACKET_MAGIC_AFMT {
        match parse_asbd(body) {
            Err(e) => Err(e),
            Ok(_) => Ok(
                (
                    s,
                    seq![
                        ActionModel::Write(
                            framed(reply_head(corr) + encode_value(afmt_reply_model())),
                        ),
                    ],
                ),
            ),
        }
    } else if magic == SYNC_PACKET_MAGIC_SKEW {
        match (
            s.start_time_local_audio_clock,
            s.last_eat_frame_received_local_audio_clock,
            s.start_time_device_audio_clock,
            s.last_eat_frame_received_device_audio_clock,
        ) {
            (Some(a), Some(b), Some(c), Some(d)) => Ok(
                (s, seq![ActionModel::Skew(corr, a, b, c, d)]),
            ),
            _ => Err(QtError::Protocol),
        }
    } else if magic == SYNC_PACKET_MAGIC_STOP {
        Ok((s, seq![ActionModel::Write(framed(reply_head(corr) + u32_le(0)))]))
    } else {
        Ok((s, Seq::empty()))
    }
}

/// The answer to an ASYN packet with inner magic `magic` and body `body`.
pub open spec fn asyn_step(s: QuickTime, magic: u32, body: Seq<u8>, now: u64) -> Result<
    (QuickTime, Seq<ActionModel>),
    QtError,
> {
    if magic == ASYN_PACKET_MAGIC_EAT {
        match parse_sample(body, MEDIA_TYPE_SOUND) {
            Err(e) => Err(e),
            Ok(sb) => match s.local_audio_clock {
                None => Err(QtError::Protocol),
                Some(c) => {
                    let t = time_at(c, now);
                    let s2 = if s.last_eat_frame_received_device_audio_clock is None {
                        QuickTime {
                            start_time_device_audio_clock: sb.output_presentation_time_stamp,
                            start_time_local_audio_clock: Some(t),
                            last_eat_frame_received_device_audio_clock:
                                sb.output_presentation_time_stamp,
                            last_eat_frame_received_local_audio_clock: Some(t),
                            ..s
                        }
                    } else {
                        QuickTime {
                            last_eat_frame_received_device_audio_clock:
                                sb.output_presentation_time_stamp,
                            last_eat_frame_received_local_audio_clock: Some(t),
                            ..s
                        }
                    };
                    Ok((s2, seq![ActionModel::Deliver(sb)]))
                },
            },
        }
    } else if magic == ASYN_PACKET_MAGIC_FEED {
        match parse_sample(body, MEDIA_TYPE_VIDEO) {
            Err(e) => Err(e),
            Ok(sb) => match s.need_clock_ref {
                None => Err(QtError::Protocol),
                Some(n) => Ok(
                    (
                        s,
                        seq![
                            ActionModel::Write(asyn_bytes(n, NEED, Seq::empty())),
                            ActionModel::Deliver(sb),
                        ],
                    ),
                ),
            },
        }
    } else {
        Ok((s, Seq::empty()))
    }
}

/// The answer to the packet `p` at host time `now`: the next state and the
/// actions, in order.
pub open spec fn step(s: QuickTime, p: Seq<u8>, now: u64) -> Result<
    (QuickTime, Seq<ActionModel>),
    QtError,
> {
    if p.len() < 8 {
        Err(QtError::UnexpectedEof)
    } else {
        let outer = le_u32(p.subrange(4, 8));
        if outer == PACKET_MAGIC_PING {
            Ok((s, seq![ActionModel::Write(p)]))
        } else if outer == PACKET_MAGIC_SYNC {
            if p.len() < 28 {
                Err(QtError::UnexpectedEof)
            } else {
                sync_step(
                    s,
                    le_u64(p.subrange(8, 16)),
                    le_u32(p.subrange(16, 20)),
                    le_u64(p.subrange(20, 28)),
                    p.subrange(28, p.len() as int),
                    now,
                )
            }
        } else if outer == PACKET_MAGIC_ASYN {
            if p.len() < 20 {
                Err(QtError::UnexpectedEof)
            } else {
                asyn_step(s, le_u32(p.subrange(16, 20)), p.subrange(20, p.len() as int), now)
            }
        } else {
            Ok((s, Seq::empty()))
        }
    }
}

/// The models of a list of actions.
pub open spec fn actions_view(a: Seq<Action>) -> Seq<ActionModel> {
    a.map_values(|x: Action| x@)
}

/// A fresh packet is sent with its length in the header.
proof fn lemma_fresh_framed(b: Seq<u8>)
    requires
        b.len() + 4 <= u32::MAX,
    ensures
        PacketView::fresh(b).finalized() == framed(b),
{
    assert(PacketView::fresh(b).finalized() =~= framed(b));
}

/// Finalizes a fresh packet and queues it to be written.
fn emit(out: &mut Vec<Action>, pkt: &mut QTPacket, Ghost(body): Ghost<Seq<u8>>)
    requires
        old(pkt)@ == PacketView::fresh(body),
        body.len() + 4 <= u32::MAX,
    ensures
        actions_view(final(out)@) == actions_view(old(out)@).push(ActionModel::Write(framed(body))),
{
    proof {
        lemma_fresh_framed(body);
    }
    let b = match pkt.as_bytes() {
        Ok(b) => b,
        Err(_) => {
            assert(false);
            return;
        },
    };
    let mut v: Vec<u8> = Vec::new();
    crate::bytes::push_all(&mut v, b);
    out.push(Action::Write(v));
    assert(actions_view(out@) =~= actions_view(old(out)@).push(ActionModel::Write(framed(body))));
}

/// The bytes of `p` as a packet, cursor at `pos`.
fn packet_at(p: &[u8], pos: usize) -> (r: QTPacket)
    requires
        4 <= pos <= p@.len(),
    ensures
        r@ == (PacketView { bytes: p@, pos: pos as nat }),
        r@.wf(),
        r@.rest() == p@.subrange(pos as int, p@.len() as int),
{
    let mut v: Vec<u8> = Vec::new();
    crate::bytes::push_all(&mut v, p);
    assert(v@ =~= p@);
    QTPacket::from_vec_at(v, pos)
}

impl QuickTime {
    /// A session in which nothing has happened yet.
    pub fn new() -> (r: QuickTime)
        ensures
            r == (QuickTime {
                clock: None,
                need_clock_ref: None,
                local_audio_clock: None,
                device_audio_clock: None,
                start_time_local_audio_clock: None,
                last_eat_frame_received_local_audio_clock: None,
                start_time_device_audio_clock: None,
                last_eat_frame_received_device_audio_clock: None,
            }),
    {
        QuickTime {
            clock: None,
            need_clock_ref: None,
            local_audio_clock: None,
            device_audio_clock: None,
            start_time_local_audio_clock: None,
            last_eat_frame_received_local_audio_clock: None,
            start_time_device_audio_clock: None,
            last_eat_frame_received_device_audio_clock: None,
        }
    }

    /// Answers the whole packet `p` received at host time `now_ns`: moves to
    /// the next state and returns the actions to carry out, in order. On an
    /// error the state is left as it was.
    pub fn handle_packet(&mut self, p: &[u8], now_ns: u64) -> (r: Result<Vec<Action>, QtError>)
        ensures
            match step(*old(self), p@, now_ns) {
                Ok((s2, acts)) => r is Ok && *final(self) == s2 && actions_view(r->Ok_0@) == acts,
                Err(e) => r == Err::<Vec<Action>, QtError>(e) && *final(self) == *old(self),
            },
    {
        let mut out: Vec<Action> = Vec::new();
        assert(actions_view(out@) =~= Seq::<ActionModel>::empty());
        if p.len() < 8 {
            return Err(QtError::UnexpectedEof);
        }
        let outer = read_u32_le(p, 4);
        if outer == PACKET_MAGIC_PING {
            let mut v: Vec<u8> = Vec::new();
            crate::bytes::push_all(&mut v, p);
            out.push(Action::Write(v));
            assert(actions_view(out@) =~= seq![ActionModel::Write(p@)]);
            return Ok(out);
        }
        if outer == PACKET_MAGIC_SYNC {
            if p.len() < 28 {
                return Err(QtError::UnexpectedEof);
            }
            let clock_ref = read_u64_le(p, 8);
            let magic = read_u32_le(p, 16);
            let corr = read_u64_le(p, 20);
            let mut body = packet_at(p, 28);
            return self.handle_sync(&mut body, clock_ref, magic, corr, now_ns);
        }
        if outer == PACKET_MAGIC_ASYN {
            if p.len() < 20 {
                return Err(QtError::UnexpectedEof);
            }
            let magic = read_u32_le(p, 16);
            let mut body = packet_at(p, 20);
            return self.handle_asyn(&mut body, magic, now_ns);
        }
        Ok(out)
    }

    fn handle_sync(
        &mut self,
        pkt: &mut QTPacket,
        clock_ref: u64,
        magic: u32,
        corr: u64,
        now_ns: u64,
    ) -> (r: Result<Vec<Action>, QtError>)
        requires
            old(pkt)@.wf(),
        ensures
            match sync_step(*old(self), clock_ref, magic, corr, old(pkt)@.rest(), now_ns) {
                Ok((s2, acts)) => r is Ok && *final(self) == s2 && actions_view(r->Ok_0@) == acts,
                Err(e) => r == Err::<Vec<Action>, QtError>(e) && *final(self) == *old(self),
            },
    {
        let ghost body = pkt@.rest();
        let mut out: Vec<Action> = Vec::new();
        assert(actions_view(out@) =~= Seq::<ActionModel>::empty());
        if magic == SYNC_PACKET_MAGIC_OG {
            let og = match QTPacketOG::from_packet(pkt) {
                Ok(x) => x,
                Err(e) => return Err(e),
            };
            let mut reply = og.reply_packet(corr);
            emit(&mut out, &mut reply, Ghost(reply_head(corr) + u32_le(0)));
            return Ok(out);
        }
        if magic == SYNC_PACKET_MAGIC_CWPA {
            let cwpa = match QTPacketCWPA::from_packet(pkt) {
                Ok(x) => x,
                Err(e) => return Err(e),
            };
            let dcr = cwpa.device_clock_ref();
            let local = dcr.wrapping_add(LOCAL_AUDIO_CLOCK_OFFSET);
            proof {
                lemma_hpd1_writable();
                lemma_hpa1_writable();
            }
            let display = QTPacketASYN::new(Some(qt_hpd1_device_info()), HPD1, EMPTY_CF_TYPE);
            let mut display_pkt = match display.as_qt_packet() {
                Ok(x) => x,
                Err(e) => return Err(e),
            };
            let ghost hb = asyn_body(EMPTY_CF_TYPE, HPD1, encode_value(hpd1_model()));
            proof {
                lemma_fresh_framed(hb);
            }
            let display_bytes = match display_pkt.as_bytes() {
                Ok(b) => b,
                Err(e) => return Err(e),
            };
            let mut hv: Vec<u8> = Vec::new();
            crate::bytes::push_all(&mut hv, display_bytes);
            out.push(Action::Write(hv));
            let mut reply = cwpa.reply_packet(corr, local);
            reply.write(display_bytes);
            assert(reply@.bytes =~= PacketView::fresh(reply_head(corr) + u64_le(local) + framed(hb)).bytes);
            emit(&mut out, &mut reply, Ghost(reply_head(corr) + u64_le(local) + framed(hb)));
            let audio = QTPacketASYN::new(Some(qt_hpa1_device_info()), HPA1, dcr);
            let mut audio_pkt = match audio.as_qt_packet() {
                Ok(x) => x,
                Err(e) => return Err(e),
            };
            emit(&mut out, &mut audio_pkt, Ghost(asyn_body(dcr, HPA1, encode_value(hpa1_model()))));
            self.local_audio_clock = Some(Clock::new_with_host_time(local, now_ns));
            self.device_audio_clock = Some(dcr);
            assert(actions_view(out@) =~= sync_step(*old(self), clock_ref, magic, corr, body, now_ns)->Ok_0.1);
            return Ok(out);
        }
        if magic == SYNC_PACKET_MAGIC_CVRP {
            let cvrp = match QTPacketCVRP::from_packet(pkt) {
                Ok(x) => x,
                Err(e) => return Err(e),
            };
            let dcr = cvrp.device_clock_ref();
            let need = QTPacketASYN::new(None, NEED, dcr);
            let mut need_pkt = match need.as_qt_packet() {
                Ok(x) => x,
                Err(e) => return Err(e),
            };
            emit(&mut out, &mut need_pkt, Ghost(asyn_body(dcr, NEED, Seq::empty())));
            let mut reply = cvrp.reply_packet(corr, dcr.wrapping_add(CVRP_CLOCK_OFFSET));
            emit(&mut out, &mut reply, Ghost(reply_head(corr) + u64_le(wrap_add(dcr, CVRP_CLOCK_OFFSET))));
            self.need_clock_ref = Some(dcr);
            assert(actions_view(out@) =~= sync_step(*old(self), clock_ref, magic, corr, body, now_ns)->Ok_0.1);
            return Ok(out);
        }
        if magic == SYNC_PACKET_MAGIC_CLOK {
            let host_time = clock_ref.wrapping_add(HOST_CLOCK_OFFSET);
            let mut reply = QTPacketCLOCK::new().reply_packet(corr, host_time);
            emit(&mut out, &mut reply, Ghost(reply_head(corr) + u64_le(host_time)));
            self.clock = Some(Clock::new_with_host_time(host_time, now_ns));
            return Ok(out);
        }
        if magic == SYNC_PACKET_MAGIC_TIME {
            let c = match self.clock {
                Some(c) => c,
                None => return Err(QtError::Protocol),
            };
            let t = c.get_time(now_ns);
            let mut reply = QTPacketTIME::new().reply_packet(corr, t);
            emit(&mut out, &mut reply, Ghost(reply_head(corr) + time_bytes(t)));
            return Ok(out);
        }
        if magic == SYNC_PACKET_MAGIC_AFMT {
            let afmt = match QTPacketAFMT::from_packet(pkt) {
                Ok(x) => x,
                Err(e) => return Err(e),
            };
            proof {
                crate::qt_device::lemma_afmt_reply_writable();
            }
            let mut reply = afmt.reply_packet(corr);
            emit(&mut out, &mut reply, Ghost(reply_head(corr) + encode_value(afmt_reply_model())));
            return Ok(out);
        }
        if magic == SYNC_PACKET_MAGIC_SKEW {
            match (
                self.start_time_local_audio_clock,
                self.last_eat_frame_received_local_audio_clock,
                self.start_time_device_audio_clock,
                self.last_eat_frame_received_device_audio_clock,
            ) {
                (Some(a), Some(b), Some(c), Some(d)) => {
                    out.push(
                        Action::Skew {
                            correlation_id: corr,
                            start_local: a,
                            last_local: b,
                            start_device: c,
                            last_device: d,
                        },
                    );
                    assert(actions_view(out@) =~= seq![ActionModel::Skew(corr, a, b, c, d)]);
                    return Ok(out);
                },
                _ => return Err(QtError::Protocol),
            }
        }
        if magic == SYNC_PACKET_MAGIC_STOP {
            let mut reply = QTPacketSTOP::new().reply_packet(corr);
            emit(&mut out, &mut reply, Ghost(reply_head(corr) + u32_le(0)));
            return Ok(out);
        }
        Ok(out)
    }

    fn handle_asyn(&mut self, pkt: &mut QTPacket, magic: u32, now_ns: u64) -> (r: Result<
        Vec<Action>,
        QtError,
    >)
        requires
            old(pkt)@.wf(),
        ensures
            match asyn_step(*old(self), magic, old(pkt)@.rest(), now_ns) {
                Ok((s2, acts)) => r is Ok && *final(self) == s2 && actions_view(r->Ok_0@) == acts,
                Err(e) => r == Err::<Vec<Action>, QtError>(e) && *final(self) == *old(self),
            },
    {
        let mut out: Vec<Action> = Vec::new();
        assert(actions_view(out@) =~= Seq::<ActionModel>::empty());
        if magic == ASYN_PACKET_MAGIC_EAT {
            let sample = match SampleBuffer::from_qt_packet(pkt, MEDIA_TYPE_SOUND) {
                Ok(x) => x,
                Err(e) => return Err(e),
            };
            let c = match self.local_audio_clock {
                Some(c) => c,
                None => return Err(QtError::Protocol),
            };
            let t = c.get_time(now_ns);
            let pts = sample.output_presentation_time_stamp();
            if self.last_eat_frame_received_device_audio_clock.is_none() {
                self.start_time_device_audio_clock = pts;
                self.start_time_local_audio_clock = Some(t);
            }
            self.last_eat_frame_received_device_audio_clock = pts;
            self.last_eat_frame_received_local_audio_clock = Some(t);
            let ghost sm = sample@;
            out.push(Action::Deliver(sample));
            assert(actions_view(out@) =~= seq![ActionModel::Deliver(sm)]);
            return Ok(out);
        }
        if magic == ASYN_PACKET_MAGIC_FEED {
            let sample = match SampleBuffer::from_qt_packet(pkt, MEDIA_TYPE_VIDEO) {
                Ok(x) => x,
                Err(e) => return Err(e),
            };
            let n = match self.need_clock_ref {
                Some(n) => n,
                None => return Err(QtError::Protocol),
            };
            let need = QTPacketASYN::new(None, NEED, n);
            let mut need_pkt = match need.as_qt_packet() {
                Ok(x) => x,
                Err(e) => return Err(e),
            };
            emit(&mut out, &mut need_pkt, Ghost(asyn_body(n, NEED, Seq::empty())));
            let ghost sm = sample@;
            let ghost before = out@;
            out.push(Action::Deliver(sample));
            assert(actions_view(out@) =~= actions_view(before).push(ActionModel::Deliver(sm)));
            assert(actions_view(out@) =~= seq![
                ActionModel::Write(asyn_bytes(n, NEED, Seq::empty())),
                ActionModel::Deliver(sm),
            ]);
            return Ok(out);
        }
        Ok(out)
    }

    /// The packets that end a session: when audio was started, an 'hpa0'
    /// with the device audio clock as header, then an 'hpd0' with header 1.
    pub fn close_session(&self) -> (r: Vec<Action>)
        ensures
            actions_view(r@) == match self.device_audio_clock {
                Some(c) => seq![
                    ActionModel::Write(asyn_bytes(c, HPA0, Seq::empty())),
                    ActionModel::Write(asyn_bytes(EMPTY_CF_TYPE, HPD0, Seq::empty())),
                ],
                None => Seq::<ActionModel>::empty(),
            },
    {
        let mut out: Vec<Action> = Vec::new();
        assert(actions_view(out@) =~= Seq::<ActionModel>::empty());
        if let Some(c) = self.device_audio_clock {
            let mut off_audio = match QTPacketASYN::new(None, HPA0, c).as_qt_packet() {
                Ok(x) => x,
                Err(_) => {
                    assert(false);
                    return out;
                },
            };
            let mut off_display = match QTPacketASYN::new(None, HPD0, EMPTY_CF_TYPE).as_qt_packet() {
                Ok(x) => x,
                Err(_) => {
                    assert(false);
                    return out;
                },
            };
            emit(&mut out, &mut off_audio, Ghost(asyn_body(c, HPA0, Seq::empty())));
            emit(&mut out, &mut off_display, Ghost(asyn_body(EMPTY_CF_TYPE, HPD0, Seq::empty())));
        }
        out
    }
}

/// The correlation id of a SYNC packet.
pub open spec fn correlation_id(p: Seq<u8>) -> u64 {
    le_u64(p.subrange(20, 28))
}

/// A SYNC packet: long enough for its clock reference, inner magic and
/// correlation id.
pub open spec fn is_sync(p: Seq<u8>) -> bool {
    p.len() >= 28 && le_u32(p.subrange(4, 8)) == PACKET_MAGIC_SYNC
}

/// A reply opens with 'rply', then the correlation id, then four zero bytes.
pub open spec fn is_reply_to(w: Seq<u8>, corr: u64) -> bool {
    w.len() >= 20 && w.subrange(4, 20) == reply_head(corr)
}

/// Whether `w` carries the 'rply' magic.
pub open spec fn has_reply_magic(w: Seq<u8>) -> bool {
    w.len() >= 8 && le_u32(w.subrange(4, 8)) == PACKET_MAGIC_REPLY
}

/// An action that, if it writes a reply, writes one to `corr`.
pub open spec fn reply_ok(a: ActionModel, corr: u64) -> bool {
    match a {
        ActionModel::Write(w) => has_reply_magic(w) ==> is_reply_to(w, corr),
        _ => true,
    }
}

/// A write of a reply.
pub open spec fn is_reply_write(a: ActionModel) -> bool {
    a matches ActionModel::Write(w) && has_reply_magic(w)
}

/// The inner magic of a SYNC packet.
pub open spec fn sync_magic(p: Seq<u8>) -> u32 {
    le_u32(p.subrange(16, 20))
}

/// SYNC requests that the step answers with a reply of its own ('skew' is
/// answered by the caller, who computes the skew).
pub open spec fn answered_sync(magic: u32) -> bool {
    magic == SYNC_PACKET_MAGIC_OG || magic == SYNC_PACKET_MAGIC_CWPA || magic
        == SYNC_PACKET_MAGIC_CVRP || magic == SYNC_PACKET_MAGIC_CLOK || magic
        == SYNC_PACKET_MAGIC_TIME || magic == SYNC_PACKET_MAGIC_AFMT || magic
        == SYNC_PACKET_MAGIC_STOP
}

/// Where the reply stands among the writes of an answered request.
pub open spec fn reply_index(magic: u32) -> int {
    if magic == SYNC_PACKET_MAGIC_CWPA || magic == SYNC_PACKET_MAGIC_CVRP {
        1
    } else {
        0
    }
}

proof fn lemma_framed_reply(rest: Seq<u8>, corr: u64)
    ensures
        is_reply_to(framed(reply_head(corr) + rest), corr),
        has_reply_magic(framed(reply_head(corr) + rest)),
        rest.len() + 20 <= u32::MAX ==> le_u32(framed(reply_head(corr) + rest).subrange(0, 4))
            == framed(reply_head(corr) + rest).len(),
{
    let w = framed(reply_head(corr) + rest);
    if rest.len() + 20 <= u32::MAX {
        assert(w.subrange(0, 4) =~= u32_le(w.len() as u32));
        crate::bytes::lemma_u32_round_trip(w.len() as u32);
    }
    assert(w.subrange(4, 20) =~= reply_head(corr));
    assert(w.subrange(4, 8) =~= u32_le(PACKET_MAGIC_REPLY));
    crate::bytes::lemma_u32_round_trip(PACKET_MAGIC_REPLY);
}

proof fn lemma_framed_asyn(h: u64, t: u32, payload: Seq<u8>)
    ensures
        !has_reply_magic(asyn_bytes(h, t, payload)),
{
    let w = asyn_bytes(h, t, payload);
    assert(w.subrange(4, 8) =~= u32_le(PACKET_MAGIC_ASYN));
    crate::bytes::lemma_u32_round_trip(PACKET_MAGIC_ASYN);
}

/// Every reply written in answer to a SYNC packet opens with 'rply', the
/// packet's correlation id and four zero bytes. A request that the step
/// answers itself gets exactly one reply, whose header holds its length.
pub proof fn lemma_sync_replies(s: QuickTime, p: Seq<u8>, now: u64)
    requires
        is_sync(p),
    ensures
        step(s, p, now) matches Ok((_, acts)) ==> forall|i: int|
            0 <= i < acts.len() ==> reply_ok(#[trigger] acts[i], correlation_id(p)),
        step(s, p, now) matches Ok((_, acts)) ==> answered_sync(sync_magic(p)) ==> {
            &&& 0 <= reply_index(sync_magic(p)) < acts.len()
            &&& forall|j: int|
                0 <= j < acts.len() ==> (is_reply_write(#[trigger] acts[j]) <==> j == reply_index(
                    sync_magic(p),
                ))
            &&& acts[reply_index(sync_magic(p))] matches ActionModel::Write(w) && le_u32(
                w.subrange(0, 4),
            ) == w.len()
        },
{
    lemma_hpd1_writable();
    crate::qt_device::lemma_afmt_reply_writable();
    crate::bytes::lemma_u32_round_trip(PACKET_MAGIC_SYNC);
    let corr = correlation_id(p);
    let magic = le_u32(p.subrange(16, 20));
    let body = p.subrange(28, p.len() as int);
    lemma_framed_reply(u32_le(0), corr);
    if magic == SYNC_PACKET_MAGIC_CWPA && body.len() >= 8 {
        let dcr = le_u64(body.subrange(0, 8));
        let local = wrap_add(dcr, LOCAL_AUDIO_CLOCK_OFFSET);
        let hpd1 = asyn_bytes(EMPTY_CF_TYPE, HPD1, encode_value(hpd1_model()));
        lemma_framed_asyn(EMPTY_CF_TYPE, HPD1, encode_value(hpd1_model()));
        lemma_framed_asyn(dcr, HPA1, encode_value(hpa1_model()));
        assert(reply_head(corr) + u64_le(local) + hpd1 == reply_head(corr) + (u64_le(local) + hpd1));
        lemma_framed_reply(u64_le(local) + hpd1, corr);
    } else if magic == SYNC_PACKET_MAGIC_CVRP && body.len() >= 8 {
        let dcr = le_u64(body.subrange(0, 8));
        lemma_framed_asyn(dcr, NEED, Seq::empty());
        lemma_framed_reply(u64_le(wrap_add(dcr, CVRP_CLOCK_OFFSET)), corr);
    } else if magic == SYNC_PACKET_MAGIC_CLOK {
        lemma_framed_reply(u64_le(wrap_add(le_u64(p.subrange(8, 16)), HOST_CLOCK_OFFSET)), corr);
    } else if magic == SYNC_PACKET_MAGIC_TIME {
        if let Some(c) = s.clock {
            lemma_framed_reply(time_bytes(time_at(c, now)), corr);
        }
    } else if magic == SYNC_PACKET_MAGIC_AFMT {
        lemma_framed_reply(encode_value(afmt_reply_model()), corr);
    }
}

/// A ping is written back byte for byte, and nothing else changes.
pub proof fn lemma_ping_echo(s: QuickTime, p: Seq<u8>, now: u64)
    requires
        p.len() >= 8,
        le_u32(p.subrange(4, 8)) == PACKET_MAGIC_PING,
    ensures
        step(s, p, now) == Ok::<(QuickTime, Seq<ActionModel>), QtError>(
            (s, seq![ActionModel::Write(p)]),
        ),
{
}

/// An ASYN packet with inner magic `magic` and body `body`.
pub open spec fn is_asyn_with(p: Seq<u8>, magic: u32) -> bool {
    p.len() >= 20 && le_u32(p.subrange(4, 8)) == PACKET_MAGIC_ASYN && le_u32(p.subrange(16, 20))
        == magic
}

/// A 'feed' that is answered writes exactly one 'need' with the recorded
/// clock reference, then hands on exactly one video sample buffer.
pub proof fn lemma_feed_needs(s: QuickTime, p: Seq<u8>, now: u64)
    requires
        is_asyn_with(p, ASYN_PACKET_MAGIC_FEED),
    ensures
        step(s, p, now) matches Ok((s2, acts)) ==> {
            &&& s2 == s
            &&& s.need_clock_ref is Some
            &&& acts.len() == 2
            &&& acts[0] == ActionModel::Write(asyn_bytes(s.need_clock_ref.unwrap(), NEED, Seq::empty()))
            &&& acts[1] matches ActionModel::Deliver(sb) && sb.media_type == MEDIA_TYPE_VIDEO
        },
{
    crate::bytes::lemma_u32_round_trip(PACKET_MAGIC_ASYN);
    let body = p.subrange(20, p.len() as int);
    if let Ok(sb) = parse_sample(body, MEDIA_TYPE_VIDEO) {
        crate::coremedia::sample::lemma_sample_media_type(body, MEDIA_TYPE_VIDEO);
    }
}

/// An 'eat!' before any 'cwpa' is refused: there is no local audio clock.
pub proof fn lemma_eat_needs_clock(s: QuickTime, p: Seq<u8>, now: u64)
    requires
        is_asyn_with(p, ASYN_PACKET_MAGIC_EAT),
        s.local_audio_clock is None,
    ensures
        step(s, p, now) is Err,
        parse_sample(p.subrange(20, p.len() as int), MEDIA_TYPE_SOUND) is Ok ==> step(s, p, now)
            == Err::<(QuickTime, Seq<ActionModel>), QtError>(QtError::Protocol),
{
    crate::bytes::lemma_u32_round_trip(PACKET_MAGIC_ASYN);
}

} // verus!
