//! Sample buffers: the 'sbuf' container of encoded video or PCM audio.
use crate::bytes::le_u32;
use crate::coremedia::format_desc::FormatDescriptor;
use crate::coremedia::time::{parse_time, Time};
use crate::error::QtError;
use crate::qt_pkt::{take_node, take_node_with_magic, QTPacket};
use crate::qt_value::{read_values, values_view, QTValue};
use crate::wire::{
    encode_format, format_wf, lemma_format_round_trip, lemma_parsed_format_wf, parse_format,
    parse_list, FormatModel, QtNode, MAGIC_FORMAT_DESCRIPTOR,
};
use vstd::prelude::*;

verus! {

pub const SBUF: u32 = 0x73627566;
pub const OPTS: u32 = 0x6F707473;
pub const STIA: u32 = 0x73746961;
pub const SDAT: u32 = 0x73646174;
pub const SATT: u32 = 0x73617474;
pub const SARY: u32 = 0x73617279;
pub const SSIZ: u32 = 0x7373697A;
pub const NSMP: u32 = 0x6E736D70;
pub const FREE: u32 = 0x66726565;

/// Duration, presentation and decode time stamps of a sample.
#[derive(Clone, Copy, Debug, PartialEq, Eq, Structural)]
pub struct SampleTimingInfo {
    pub duration: Time,
    pub presentation_time_stamp: Time,
    pub decode_time_stamp: Time,
}

/// The timing info whose 72 bytes open `b`.
pub open spec fn parse_timing(b: Seq<u8>) -> Result<SampleTimingInfo, QtError> {
    match (parse_time(b), parse_time(b.subrange(24, b.len() as int)), parse_time(
        b.subrange(48, b.len() as int),
    )) {
        (Ok(d), Ok(p), Ok(t)) => Ok(
            SampleTimingInfo { duration: d, presentation_time_stamp: p, decode_time_stamp: t },
        ),
        _ => Err(QtError::UnexpectedEof),
    }
}

/// Timing infos that fill `b` exactly.
pub open spec fn parse_timings(b: Seq<u8>) -> Result<Seq<SampleTimingInfo>, QtError>
    decreases b.len(),
{
    if b.len() == 0 {
        Ok(Seq::empty())
    } else if b.len() < 72 {
        Err(QtError::UnexpectedEof)
    } else {
        match (parse_timing(b), parse_timings(b.subrange(72, b.len() as int))) {
            (Ok(t), Ok(s)) => Ok(seq![t] + s),
            (Err(e), _) => Err(e),
            (_, Err(e)) => Err(e),
        }
    }
}

/// Little-endian u32s that fill `b` exactly.
pub open spec fn parse_u32s(b: Seq<u8>) -> Result<Seq<u32>, QtError>
    decreases b.len(),
{
    if b.len() == 0 {
        Ok(Seq::empty())
    } else if b.len() < 4 {
        Err(QtError::UnexpectedEof)
    } else {
        match parse_u32s(b.subrange(4, b.len() as int)) {
            Ok(s) => Ok(seq![le_u32(b.subrange(0, 4))] + s),
            Err(e) => Err(e),
        }
    }
}

/// What a sample buffer holds.
pub ghost struct SampleModel {
    pub output_presentation_time_stamp: Option<Time>,
    pub format_description: Option<FormatModel>,
    pub num_samples: u32,
    pub sample_timing_info_array: Option<Seq<SampleTimingInfo>>,
    pub sample_data: Option<Seq<u8>>,
    pub sample_sizes: Option<Seq<u32>>,
    pub attachments: Option<Seq<QtNode>>,
    pub sary: Option<Seq<QtNode>>,
    pub media_type: u32,
}

/// An empty sample buffer of the given media type.
pub open spec fn empty_sample(media_type: u32) -> SampleModel {
    SampleModel {
        output_presentation_time_stamp: None,
        format_description: None,
        num_samples: 0,
        sample_timing_info_array: None,
        sample_data: None,
        sample_sizes: None,
        attachments: None,
        sary: None,
        media_type,
    }
}

/// `s` with the child of magic `magic` and body `body` recorded.
pub open spec fn with_child(s: SampleModel, magic: u32, body: Seq<u8>) -> Result<
    SampleModel,
    QtError,
> {
    if magic == OPTS {
        match parse_time(body) {
            Ok(t) => Ok(SampleModel { output_presentation_time_stamp: Some(t), ..s }),
            Err(e) => Err(e),
        }
    } else if magic == STIA {
        match parse_timings(body) {
            Ok(t) => Ok(SampleModel { sample_timing_info_array: Some(t), ..s }),
            Err(e) => Err(e),
        }
    } else if magic == SDAT {
        Ok(SampleModel { sample_data: Some(body), ..s })
    } else if magic == NSMP {
        if body.len() < 4 {
            Err(QtError::UnexpectedEof)
        } else {
            Ok(SampleModel { num_samples: le_u32(body.subrange(0, 4)), ..s })
        }
    } else if magic == SSIZ {
        match parse_u32s(body) {
            Ok(t) => Ok(SampleModel { sample_sizes: Some(t), ..s }),
            Err(e) => Err(e),
        }
    } else if magic == MAGIC_FORMAT_DESCRIPTOR {
        match parse_format(body) {
            Ok((f, _)) => Ok(SampleModel { format_description: Some(f), ..s }),
            Err(e) => Err(e),
        }
    } else if magic == SATT {
        match parse_list(body) {
            Ok(t) => Ok(SampleModel { attachments: Some(t), ..s }),
            Err(e) => Err(e),
        }
    } else if magic == SARY {
        match parse_list(body) {
            Ok(t) => Ok(SampleModel { sary: Some(t), ..s }),
            Err(e) => Err(e),
        }
    } else {
        Ok(s)
    }
}

/// `s` with the child nodes that fill `b` recorded in order; padding and
/// unknown magics are skipped.
pub open spec fn with_children(s: SampleModel, b: Seq<u8>) -> Result<SampleModel, QtError>
    decreases b.len(),
{
    if b.len() == 0 {
        Ok(s)
    } else {
        match take_node(b) {
            Err(e) => Err(e),
            Ok(n) => if n.len() < 8 {
                Err(QtError::UnexpectedEof)
            } else {
                match with_child(s, le_u32(n.subrange(4, 8)), n.subrange(8, n.len() as int)) {
                    Err(e) => Err(e),
                    Ok(s2) => with_children(s2, b.subrange(n.len() as int, b.len() as int)),
                }
            },
        }
    }
}

/// The sample buffer whose 'sbuf' node opens `b`.
pub open spec fn parse_sample(b: Seq<u8>, media_type: u32) -> Result<SampleModel, QtError> {
    match take_node_with_magic(b, SBUF) {
        Err(e) => Err(e),
        Ok(n) => with_children(empty_sample(media_type), n.subrange(8, n.len() as int)),
    }
}

/// A sample buffer, with the media type that the dispatcher gave it.
#[derive(Debug, PartialEq)]
pub struct SampleBuffer {
    pub output_presentation_time_stamp: Option<Time>,
    pub format_description: Option<FormatDescriptor>,
    pub num_samples: u32,
    pub sample_timing_info_array: Option<Vec<SampleTimingInfo>>,
    pub sample_data: Option<Vec<u8>>,
    pub sample_sizes: Option<Vec<u32>>,
    pub attachments: Option<Vec<QTValue>>,
    pub sary: Option<Vec<QTValue>>,
    pub media_type: u32,
}

impl View for SampleBuffer {
    type V = SampleModel;

    open spec fn view(&self) -> SampleModel {
        SampleModel {
            output_presentation_time_stamp: self.output_presentation_time_stamp,
            format_description: match self.format_description {
                Some(f) => Some(f@),
                None => None,
            },
            num_samples: self.num_samples,
            sample_timing_info_array: match self.sample_timing_info_array {
                Some(v) => Some(v@),
                None => None,
            },
            sample_data: match self.sample_data {
                Some(v) => Some(v@),
                None => None,
            },
            sample_sizes: match self.sample_sizes {
                Some(v) => Some(v@),
                None => None,
            },
            attachments: match self.attachments {
                Some(v) => Some(values_view(v@)),
                None => None,
            },
            sary: match self.sary {
                Some(v) => Some(values_view(v@)),
                None => None,
            },
            media_type: self.media_type,
        }
    }
}

impl SampleTimingInfo {
    /// Reads three times at the cursor.
    pub fn from_qt_packet(pkt: &mut QTPacket) -> (r: Result<SampleTimingInfo, QtError>)
        requires
            old(pkt)@.wf(),
        ensures
            final(pkt)@.wf(),
            r == parse_timing(old(pkt)@.rest()),
            r is Ok ==> final(pkt)@ == old(pkt)@.advanced(72),
    {
        let ghost b = pkt@.rest();
        let duration = match Time::from_qt_packet(pkt) {
            Ok(t) => t,
            Err(e) => return Err(e),
        };
        assert(pkt@.rest() =~= b.subrange(24, b.len() as int));
        let presentation_time_stamp = match Time::from_qt_packet(pkt) {
            Ok(t) => t,
            Err(e) => return Err(e),
        };
        assert(pkt@.rest() =~= b.subrange(48, b.len() as int));
        let decode_time_stamp = match Time::from_qt_packet(pkt) {
            Ok(t) => t,
            Err(e) => return Err(e),
        };
        Ok(SampleTimingInfo { duration, presentation_time_stamp, decode_time_stamp })
    }
}

/// Reads timing infos until the end of the packet.
fn read_timings(pkt: &mut QTPacket) -> (r: Result<Vec<SampleTimingInfo>, QtError>)
    requires
        old(pkt)@.wf(),
    ensures
        match parse_timings(old(pkt)@.rest()) {
            Ok(s) => r is Ok && r->Ok_0@ == s,
            Err(e) => r == Err::<Vec<SampleTimingInfo>, QtError>(e),
        },
{
    let ghost orig = pkt@.rest();
    let mut arr: Vec<SampleTimingInfo> = Vec::new();
    while pkt.pos() < pkt.len()
        invariant
            pkt@.wf(),
            orig == old(pkt)@.rest(),
            parse_timings(orig) == match parse_timings(pkt@.rest()) {
                Ok(s) => Ok(arr@ + s),
                Err(e) => Err(e),
            },
        decreases pkt@.rest().len(),
    {
        let ghost cur = pkt@.rest();
        if pkt.remaining() < 72 {
            assert(parse_timings(cur) == Err::<Seq<SampleTimingInfo>, QtError>(QtError::UnexpectedEof));
            return Err(QtError::UnexpectedEof);
        }
        let t = match SampleTimingInfo::from_qt_packet(pkt) {
            Ok(t) => t,
            Err(e) => return Err(e),
        };
        proof {
            assert(pkt@.rest() =~= cur.subrange(72, cur.len() as int));
            match parse_timings(pkt@.rest()) {
                Ok(s) => {
                    assert(arr@.push(t) + s =~= arr@ + (seq![t] + s));
                },
                Err(_) => {},
            }
        }
        arr.push(t);
    }
    assert(pkt@.rest() =~= Seq::<u8>::empty());
    assert(arr@ + Seq::<SampleTimingInfo>::empty() =~= arr@);
    Ok(arr)
}

/// Reads little-endian u32s until the end of the packet.
fn read_u32s(pkt: &mut QTPacket) -> (r: Result<Vec<u32>, QtError>)
    requires
        old(pkt)@.wf(),
    ensures
        match parse_u32s(old(pkt)@.rest()) {
            Ok(s) => r is Ok && r->Ok_0@ == s,
            Err(e) => r == Err::<Vec<u32>, QtError>(e),
        },
{
    let ghost orig = pkt@.rest();
    let mut arr: Vec<u32> = Vec::new();
    while pkt.pos() < pkt.len()
        invariant
            pkt@.wf(),
            orig == old(pkt)@.rest(),
            parse_u32s(orig) == match parse_u32s(pkt@.rest()) {
                Ok(s) => Ok(arr@ + s),
                Err(e) => Err(e),
            },
        decreases pkt@.rest().len(),
    {
        let ghost cur = pkt@.rest();
        let v = match pkt.read_u32() {
            Ok(v) => v,
            Err(e) => {
                assert(parse_u32s(cur) == Err::<Seq<u32>, QtError>(QtError::UnexpectedEof));
                return Err(e);
            },
        };
        proof {
            assert(pkt@.rest() =~= cur.subrange(4, cur.len() as int));
            match parse_u32s(pkt@.rest()) {
                Ok(s) => {
                    assert(arr@.push(v) + s =~= arr@ + (seq![v] + s));
                },
                Err(_) => {},
            }
        }
        arr.push(v);
    }
    assert(pkt@.rest() =~= Seq::<u8>::empty());
    assert(arr@ + Seq::<u32>::empty() =~= arr@);
    Ok(arr)
}

impl SampleBuffer {
    /// An empty sample buffer of the given media type.
    pub fn new(media_type: u32) -> (r: SampleBuffer)
        ensures
            r@ == empty_sample(media_type),
    {
        SampleBuffer {
            output_presentation_time_stamp: None,
            format_description: None,
            num_samples: 0,
            sample_timing_info_array: None,
            sample_data: None,
            sample_sizes: None,
            attachments: None,
            sary: None,
            media_type,
        }
    }

    /// The sample array, when there is one.
    pub fn sary(&self) -> (r: Option<&Vec<QTValue>>)
        ensures
            r is Some == self.sary is Some,
            r is Some ==> *r->Some_0 == self.sary.unwrap(),
    {
        self.sary.as_ref()
    }

    /// The raw AVCC-framed NAL units or PCM frames.
    pub fn sample_data(&self) -> (r: Option<&[u8]>)
        ensures
            r is Some == self.sample_data is Some,
            r is Some ==> r->Some_0@ == self.sample_data.unwrap()@,
    {
        match &self.sample_data {
            Some(e) => Some(e.as_slice()),
            None => None,
        }
    }

    pub fn format_description(&self) -> (r: Option<&FormatDescriptor>)
        ensures
            r is Some == self.format_description is Some,
            r is Some ==> *r->Some_0 == self.format_description.unwrap(),
    {
        self.format_description.as_ref()
    }

    pub fn media_type(&self) -> (r: u32)
        ensures
            r == self.media_type,
    {
        self.media_type
    }

    pub fn output_presentation_time_stamp(&self) -> (r: Option<Time>)
        ensures
            r == self.output_presentation_time_stamp,
    {
        self.output_presentation_time_stamp
    }

    /// Records one child node of an 'sbuf' container.
    fn add_child(&mut self, magic: u32, inner: &mut QTPacket) -> (r: Result<(), QtError>)
        requires
            old(inner)@.wf(),
        ensures
            match with_child(old(self)@, magic, old(inner)@.rest()) {
                Ok(s) => r is Ok && final(self)@ == s,
                Err(e) => r == Err::<(), QtError>(e),
            },
    {
        if magic == OPTS {
            match Time::from_qt_packet(inner) {
                Ok(t) => self.output_presentation_time_stamp = Some(t),
                Err(e) => return Err(e),
            }
        } else if magic == STIA {
            match read_timings(inner) {
                Ok(t) => self.sample_timing_info_array = Some(t),
                Err(e) => return Err(e),
            }
        } else if magic == SDAT {
            let n = inner.remaining();
            match inner.read_vec(n) {
                Ok(d) => {
                    assert(d@ =~= old(inner)@.rest());
                    self.sample_data = Some(d);
                },
                Err(e) => return Err(e),
            }
        } else if magic == NSMP {
            match inner.read_u32() {
                Ok(n) => self.num_samples = n,
                Err(e) => return Err(e),
            }
        } else if magic == SSIZ {
            match read_u32s(inner) {
                Ok(t) => self.sample_sizes = Some(t),
                Err(e) => return Err(e),
            }
        } else if magic == MAGIC_FORMAT_DESCRIPTOR {
            match FormatDescriptor::from_qt_packet(inner) {
                Ok(f) => self.format_description = Some(f),
                Err(e) => return Err(e),
            }
        } else if magic == SATT {
            match read_values(inner) {
                Ok(t) => self.attachments = Some(t),
                Err(e) => return Err(e),
            }
        } else if magic == SARY {
            match read_values(inner) {
                Ok(t) => self.sary = Some(t),
                Err(e) => return Err(e),
            }
        }
        Ok(())
    }

    /// Reads the 'sbuf' node at the cursor. Child nodes are recorded by
    /// magic until the node is used up; padding and unknown magics are
    /// skipped.
    pub fn from_qt_packet(pkt: &mut QTPacket, media_type: u32) -> (r: Result<SampleBuffer, QtError>)
        requires
            old(pkt)@.wf(),
        ensures
            final(pkt)@.wf(),
            match parse_sample(old(pkt)@.rest(), media_type) {
                Ok(s) => r is Ok && r->Ok_0@ == s && final(pkt)@ == old(pkt)@.advanced(
                    take_node_with_magic(old(pkt)@.rest(), SBUF)->Ok_0.len(),
                ),
                Err(e) => r == Err::<SampleBuffer, QtError>(e),
            },
    {
        let mut sample = Self::new(media_type);
        let (mut sbuf, _) = match QTPacket::from_qt_packet_with_magic(pkt, SBUF) {
            Ok(x) => x,
            Err(e) => return Err(e),
        };
        let ghost after = pkt@;
        let ghost orig = sbuf@.rest();
        while sbuf.pos() < sbuf.len()
            invariant
                sbuf@.wf(),
                pkt@.wf(),
                pkt@ == after,
                after == old(pkt)@.advanced(take_node_with_magic(old(pkt)@.rest(), SBUF)->Ok_0.len()),
                parse_sample(old(pkt)@.rest(), media_type) == with_children(
                    empty_sample(media_type),
                    orig,
                ),
                with_children(empty_sample(media_type), orig) == with_children(
                    sample@,
                    sbuf@.rest(),
                ),
            decreases sbuf@.rest().len(),
        {
            let ghost cur = sbuf@.rest();
            let (mut inner, magic) = match sbuf.read_qt_packet_with_magic() {
                Ok(e) => e,
                Err(e) => return Err(e),
            };
            proof {
                let n = inner@.bytes;
                assert(sbuf@.rest() =~= cur.subrange(n.len() as int, cur.len() as int));
                assert(inner@.rest() =~= n.subrange(8, n.len() as int));
            }
            match sample.add_child(magic, &mut inner) {
                Ok(()) => {},
                Err(e) => return Err(e),
            }
        }
        Ok(sample)
    }
}

/// Recording children keeps the media type.
pub proof fn lemma_children_media_type(s: SampleModel, b: Seq<u8>)
    ensures
        with_children(s, b) matches Ok(s2) ==> s2.media_type == s.media_type,
    decreases b.len(),
{
    if b.len() > 0 {
        if let Ok(n) = take_node(b) {
            if n.len() >= 8 {
                if let Ok(s2) = with_child(s, le_u32(n.subrange(4, 8)), n.subrange(8, n.len() as int)) {
                    lemma_children_media_type(s2, b.subrange(n.len() as int, b.len() as int));
                }
            }
        }
    }
}

/// A parsed sample buffer has the media type it was parsed with.
pub proof fn lemma_sample_media_type(b: Seq<u8>, media_type: u32)
    ensures
        parse_sample(b, media_type) matches Ok(s) ==> s.media_type == media_type,
{
    if let Ok(n) = take_node_with_magic(b, SBUF) {
        lemma_children_media_type(empty_sample(media_type), n.subrange(8, n.len() as int));
    }
}

/// The format descriptor that recording children leaves is one that the
/// parser gives back.
pub proof fn lemma_children_format_wf(s: SampleModel, b: Seq<u8>)
    requires
        s.format_description matches Some(f) ==> format_wf(f),
    ensures
        with_children(s, b) matches Ok(s2) ==> (s2.format_description matches Some(f)
            ==> format_wf(f)),
    decreases b.len(),
{
    if b.len() > 0 {
        if let Ok(n) = take_node(b) {
            if n.len() >= 8 {
                let magic = le_u32(n.subrange(4, 8));
                let body = n.subrange(8, n.len() as int);
                lemma_parsed_format_wf(body);
                if let Ok(s2) = with_child(s, magic, body) {
                    lemma_children_format_wf(s2, b.subrange(n.len() as int, b.len() as int));
                }
            }
        }
    }
}

/// The format descriptor of a sample buffer parsed from bytes, written and
/// parsed again, has the same fields.
pub proof fn lemma_sample_format_reencode(b: Seq<u8>, media_type: u32)
    requires
        parse_sample(b, media_type) matches Ok(s) && s.format_description matches Some(f)
            && encode_format(f).len() <= u32::MAX,
    ensures
        parse_sample(b, media_type) matches Ok(s) && s.format_description matches Some(f)
            && parse_format(encode_format(f)) matches Ok((g, _)) && g == f,
{
    let n = take_node_with_magic(b, SBUF)->Ok_0;
    lemma_children_format_wf(empty_sample(media_type), n.subrange(8, n.len() as int));
    let f = parse_sample(b, media_type)->Ok_0.format_description.unwrap();
    lemma_format_round_trip(f);
}

} // verus!
