//! Format descriptors and the AVCC record of an H.264 stream.
use crate::coremedia::audio_desc::AudioStreamDescription;
use crate::bytes::{push_all, push_u32_le, read_u16_be};
use crate::error::QtError;
use crate::qt_pkt::{node, PacketView, QTPacket};
use crate::qt_value::{
    encode_values, lemma_values_view_index, read_values, value_view, values_view, write_node,
    QTValue,
};
use crate::wire::{
    avc_of, avc_of_extension, encode_format, format_encodable,
    lemma_node_header, nalus_after, parse_avcc, parse_format, parse_nalus, AvcModel,
    FormatModel, AVCC_KEY, EXTENSION_ATOMS_KEY,
    MAGIC_AUDIO_STREAM_DESCRIPTION, MAGIC_CODEC, MAGIC_EXTENSION, MAGIC_FORMAT_DESCRIPTOR,
    MAGIC_MEDIA_TYPE, MAGIC_VIDEO_DIMENSION, MEDIA_TYPE_SOUND, MEDIA_TYPE_VIDEO,
};
use vstd::prelude::*;

verus! {

/// A decoded AVCC record: the header fields and the last SPS and PPS.
#[derive(Debug, PartialEq)]
pub struct AVC1 {
    pub version: u8,
    pub avc_profile: u8,
    pub avc_compatibility: u8,
    pub avc_level: u8,
    pub nalu_len: u8,
    pub sps: Option<Vec<u8>>,
    pub pps: Option<Vec<u8>>,
}

impl View for AVC1 {
    type V = AvcModel;

    open spec fn view(&self) -> AvcModel {
        AvcModel {
            version: self.version,
            profile: self.avc_profile,
            compatibility: self.avc_compatibility,
            level: self.avc_level,
            nalu_len: self.nalu_len,
            sps: match self.sps {
                Some(v) => Some(v@),
                None => None,
            },
            pps: match self.pps {
                Some(v) => Some(v@),
                None => None,
            },
        }
    }
}

/// The bytes `d[from..to]`.
fn copy_range(d: &[u8], from: usize, to: usize) -> (r: Vec<u8>)
    requires
        from <= to <= d@.len(),
    ensures
        r@ == d@.subrange(from as int, to as int),
{
    let mut out: Vec<u8> = Vec::new();
    let mut i = from;
    while i < to
        invariant
            from <= i <= to <= d@.len(),
            out@ == d@.subrange(from as int, i as int),
        decreases to - i,
    {
        out.push(d[i]);
        i = i + 1;
        assert(out@ =~= d@.subrange(from as int, i as int));
    }
    out
}

/// Reads `count` NAL units of the shape `[u16-be len][len bytes]` from
/// `d[start..]`: the last of them and how many bytes they took.
fn read_nalus(d: &[u8], start: usize, count: u8) -> (r: Result<(Option<Vec<u8>>, usize), QtError>)
    requires
        start <= d@.len(),
    ensures
        match parse_nalus(d@.subrange(start as int, d@.len() as int), count as nat) {
            Ok((l, u)) => r is Ok && r->Ok_0.1 == u && match r->Ok_0.0 {
                Some(v) => l == Some(v@),
                None => l is None,
            },
            Err(e) => r == Err::<(Option<Vec<u8>>, usize), QtError>(e),
        },
        r is Ok ==> start + r->Ok_0.1 <= d@.len(),
{
    let mut at = start;
    let mut last: Option<Vec<u8>> = None;
    let mut k: u8 = 0;
    while k < count
        invariant
            start <= at <= d@.len(),
            k <= count,
            parse_nalus(d@.subrange(start as int, d@.len() as int), count as nat) == nalus_after(
                match last {
                    Some(v) => Some(v@),
                    None => None,
                },
                (at - start) as nat,
                parse_nalus(d@.subrange(at as int, d@.len() as int), (count - k) as nat),
            ),
        decreases count - k,
    {
        let ghost cur = d@.subrange(at as int, d@.len() as int);
        if d.len() - at < 2 {
            return Err(QtError::UnexpectedEof);
        }
        let n = read_u16_be(d, at) as usize;
        assert(cur.subrange(0, 2) =~= d@.subrange(at as int, at + 2));
        if d.len() - at - 2 < n {
            return Err(QtError::UnexpectedEof);
        }
        let v = copy_range(d, at + 2, at + 2 + n);
        proof {
            assert(cur.subrange(2, 2 + n as int) =~= v@);
            assert(cur.subrange(2 + n as int, cur.len() as int) =~= d@.subrange(at + 2 + n, d@.len() as int));
        }
        last = Some(v);
        at = at + 2 + n;
        k = k + 1;
    }
    Ok((last, at - start))
}

impl AVC1 {
    /// The last SPS of the record.
    pub fn sps(&self) -> (r: &[u8])
        requires
            self.sps is Some,
        ensures
            r@ == self.sps.unwrap()@,
    {
        match &self.sps {
            Some(v) => v.as_slice(),
            None => {
                assert(false);
                &[]
            },
        }
    }

    /// The last PPS of the record.
    pub fn pps(&self) -> (r: &[u8])
        requires
            self.pps is Some,
        ensures
            r@ == self.pps.unwrap()@,
    {
        match &self.pps {
            Some(v) => v.as_slice(),
            None => {
                assert(false);
                &[]
            },
        }
    }

    /// Decodes an AVCC record: version, profile, compatibility, level, NAL
    /// unit length, the SPS units, then the PPS units.
    pub fn from_vec(data: &Vec<u8>) -> (r: Result<AVC1, QtError>)
        ensures
            match parse_avcc(data@) {
                Ok(a) => r is Ok && r->Ok_0@ == a,
                Err(e) => r == Err::<AVC1, QtError>(e),
            },
    {
        let d = data.as_slice();
        if d.len() < 6 {
            return Err(QtError::UnexpectedEof);
        }
        let (sps, used) = match read_nalus(d, 6, d[5] & 0x1f) {
            Ok(x) => x,
            Err(e) => return Err(e),
        };
        let at = 6 + used;
        let b4 = d[4];
        assert((b4 & 3u8) <= 3u8) by (bit_vector);
        if d.len() <= at {
            return Err(QtError::UnexpectedEof);
        }
        let (pps, _) = match read_nalus(d, at + 1, d[at] & 0x1f) {
            Ok(x) => x,
            Err(e) => return Err(e),
        };
        Ok(AVC1 {
            version: d[0],
            avc_profile: d[1],
            avc_compatibility: d[2],
            avc_level: d[3],
            nalu_len: (b4 & 3) + 1,
            sps,
            pps,
        })
    }
}

/// The AVCC record that an extension carries, if it follows the path
/// IdxKey(49) => Dictionary whose first entry is IdxKey(105) => Data.
fn avc_from_extension(e: &QTValue) -> (r: Result<Option<AVC1>, QtError>)
    ensures
        match avc_of_extension(e@) {
            Ok(Some(a)) => r is Ok && r->Ok_0 is Some && r->Ok_0->Some_0@ == a,
            Ok(None) => r is Ok && r->Ok_0 is None,
            Err(err) => r == Err::<Option<AVC1>, QtError>(err),
        },
{
    proof {
        reveal_with_fuel(value_view, 3);
    }
    let p = match e {
        QTValue::KeyValuePair(p) => p,
        _ => return Ok(None),
    };
    let k = match &p.key {
        QTValue::IdxKey(k) => *k,
        _ => return Ok(None),
    };
    let obj = match &p.value {
        QTValue::Object(obj) => obj,
        _ => return Ok(None),
    };
    if k != EXTENSION_ATOMS_KEY || obj.len() == 0 {
        return Ok(None);
    }
    proof {
        lemma_values_view_index(obj@, 0);
    }
    let p2 = match &obj[0] {
        QTValue::KeyValuePair(p2) => p2,
        _ => return Ok(None),
    };
    let k2 = match &p2.key {
        QTValue::IdxKey(k2) => *k2,
        _ => return Ok(None),
    };
    let d = match &p2.value {
        QTValue::Data(d) => d,
        _ => return Ok(None),
    };
    if k2 != AVCC_KEY {
        return Ok(None);
    }
    match AVC1::from_vec(d) {
        Ok(a) => Ok(Some(a)),
        Err(err) => Err(err),
    }
}

/// A media-typed descriptor: sound with its stream description, or video
/// with its dimensions, codec, extensions and AVCC record.
#[derive(Debug, PartialEq)]
pub struct FormatDescriptor {
    pub media_type: u32,
    pub video_dimension_width: u32,
    pub video_dimension_height: u32,
    pub codec: u32,
    pub extensions: Option<Vec<QTValue>>,
    pub avc1: Option<AVC1>,
    pub audio_stream_basic_description: Option<AudioStreamDescription>,
}

/// The model of a descriptor.
pub open spec fn format_view(f: FormatDescriptor) -> FormatModel
    decreases f,
{
    FormatModel {
        media_type: f.media_type,
        width: f.video_dimension_width,
        height: f.video_dimension_height,
        codec: f.codec,
        extensions: match f.extensions {
            Some(e) => Some(values_view(e@)),
            None => None,
        },
        avc1: match f.avc1 {
            Some(a) => Some(a@),
            None => None,
        },
        asbd: match f.audio_stream_basic_description {
            Some(a) => Some(a@),
            None => None,
        },
    }
}

impl View for FormatDescriptor {
    type V = FormatModel;

    open spec fn view(&self) -> FormatModel {
        format_view(*self)
    }
}

impl FormatDescriptor {
    /// The wire bytes of this descriptor as a 'fdsc' node: 'mdia', then
    /// 'asbd' for sound, or 'vdim', 'codc' and 'extn' for video. Fails for
    /// another media type, for sound without a stream description, or when
    /// a length does not fit its header.
    pub fn encode(&self) -> (r: Result<Vec<u8>, QtError>)
        ensures
            (format_encodable(self@) && node(MAGIC_FORMAT_DESCRIPTOR, encode_format(self@)).len()
                <= u32::MAX) ==> r is Ok && r->Ok_0@ == node(
                MAGIC_FORMAT_DESCRIPTOR,
                encode_format(self@),
            ),
            !(format_encodable(self@) && node(MAGIC_FORMAT_DESCRIPTOR, encode_format(self@)).len()
                <= u32::MAX) ==> r == Err::<Vec<u8>, QtError>(QtError::InvalidValue),
        decreases self,
    {
        let ghost whole = node(MAGIC_FORMAT_DESCRIPTOR, encode_format(self@));
        let mut mt: Vec<u8> = Vec::new();
        push_u32_le(&mut mt, self.media_type);
        let mut payload = match write_node(MAGIC_MEDIA_TYPE, mt.as_slice()) {
            Ok(p) => p,
            Err(e) => return Err(e),
        };
        if self.media_type == MEDIA_TYPE_SOUND {
            match &self.audio_stream_basic_description {
                None => return Err(QtError::InvalidValue),
                Some(a) => {
                    let ab = a.as_buffer();
                    let n = match write_node(MAGIC_AUDIO_STREAM_DESCRIPTION, ab.as_slice()) {
                        Ok(n) => n,
                        Err(e) => return Err(e),
                    };
                    push_all(&mut payload, n.as_slice());
                },
            }
        } else if self.media_type == MEDIA_TYPE_VIDEO {
            let mut dims: Vec<u8> = Vec::new();
            push_u32_le(&mut dims, self.video_dimension_width);
            push_u32_le(&mut dims, self.video_dimension_height);
            let vd = match write_node(MAGIC_VIDEO_DIMENSION, dims.as_slice()) {
                Ok(n) => n,
                Err(e) => return Err(e),
            };
            push_all(&mut payload, vd.as_slice());
            let mut codec: Vec<u8> = Vec::new();
            push_u32_le(&mut codec, self.codec);
            let cd = match write_node(MAGIC_CODEC, codec.as_slice()) {
                Ok(n) => n,
                Err(e) => return Err(e),
            };
            push_all(&mut payload, cd.as_slice());
            let ext = match &self.extensions {
                Some(e) => match encode_values(e) {
                    Ok(x) => x,
                    Err(err) => {
                        return Err(err);
                    },
                },
                None => Vec::new(),
            };
            let ex = match write_node(MAGIC_EXTENSION, ext.as_slice()) {
                Ok(n) => n,
                Err(e) => return Err(e),
            };
            push_all(&mut payload, ex.as_slice());
        } else {
            return Err(QtError::InvalidValue);
        }
        assert(payload@ =~= encode_format(self@));
        write_node(MAGIC_FORMAT_DESCRIPTOR, payload.as_slice())
    }

    /// This descriptor as a packet holding its 'fdsc' node, cursor at the
    /// end. Fails as `encode` does.
    pub fn as_qt_packet(&self) -> (r: Result<QTPacket, QtError>)
        ensures
            (format_encodable(self@) && node(MAGIC_FORMAT_DESCRIPTOR, encode_format(self@)).len()
                <= u32::MAX) ==> r is Ok && r->Ok_0@.finalized() == node(
                MAGIC_FORMAT_DESCRIPTOR,
                encode_format(self@),
            ) && r->Ok_0@.wf(),
            !(format_encodable(self@) && node(MAGIC_FORMAT_DESCRIPTOR, encode_format(self@)).len()
                <= u32::MAX) ==> r is Err,
    {
        match self.encode() {
            Ok(b) => {
                proof {
                    lemma_node_header(MAGIC_FORMAT_DESCRIPTOR, encode_format(self@));
                    (PacketView { bytes: b@, pos: b@.len() }).lemma_finalized_same();
                }
                let n = b.len();
                Ok(QTPacket::from_vec_at(b, n))
            },
            Err(e) => Err(e),
        }
    }

    pub fn video_dimension_width(&self) -> (r: u32)
        ensures
            r == self.video_dimension_width,
    {
        self.video_dimension_width
    }

    pub fn video_dimension_height(&self) -> (r: u32)
        ensures
            r == self.video_dimension_height,
    {
        self.video_dimension_height
    }

    /// The stream description of a sound descriptor.
    pub fn audio_stream_description(&self) -> (r: &AudioStreamDescription)
        requires
            self.audio_stream_basic_description is Some,
        ensures
            *r == self.audio_stream_basic_description.unwrap(),
    {
        match &self.audio_stream_basic_description {
            Some(a) => a,
            None => {
                assert(false);
                &self.audio_stream_basic_description.as_ref().unwrap()
            },
        }
    }

    /// The AVCC record of a video descriptor.
    pub fn avc1(&self) -> (r: &AVC1)
        requires
            self.avc1 is Some,
        ensures
            *r == self.avc1.unwrap(),
    {
        match &self.avc1 {
            Some(a) => a,
            None => {
                assert(false);
                self.avc1.as_ref().unwrap()
            },
        }
    }

    /// Reads the children of a 'fdsc' node at the cursor: 'mdia', then
    /// 'asbd' for sound, or 'vdim', 'codc' and 'extn' for video, and the
    /// AVCC record that the extensions carry.
    pub fn from_qt_packet(pkt: &mut QTPacket) -> (r: Result<FormatDescriptor, QtError>)
        requires
            old(pkt)@.wf(),
        ensures
            final(pkt)@.wf(),
            match parse_format(old(pkt)@.rest()) {
                Ok((f, n)) => r is Ok && r->Ok_0@ == f && final(pkt)@ == old(pkt)@.advanced(n),
                Err(e) => r == Err::<FormatDescriptor, QtError>(e),
            },
        decreases old(pkt)@.rest().len(), 1nat,
    {
        let ghost b = pkt@.rest();
        let ghost p0 = pkt@;
        let (mut mdia, _) = match QTPacket::from_qt_packet_with_magic(pkt, MAGIC_MEDIA_TYPE) {
            Ok(x) => x,
            Err(e) => return Err(e),
        };
        let ghost n1 = mdia@.bytes;
        let media_type = match mdia.read_u32() {
            Ok(m) => m,
            Err(e) => return Err(e),
        };
        proof {
            assert(mdia@.bytes.subrange(8, mdia@.bytes.len() as int).subrange(0, 4) =~= n1.subrange(8, 12));
            assert(pkt@.rest() =~= b.subrange(n1.len() as int, b.len() as int));
        }
        let ghost b1 = pkt@.rest();
        if media_type == MEDIA_TYPE_SOUND {
            let (mut asbd, _) = match QTPacket::from_qt_packet_with_magic(
                pkt,
                MAGIC_AUDIO_STREAM_DESCRIPTION,
            ) {
                Ok(x) => x,
                Err(e) => return Err(e),
            };
            let a = match AudioStreamDescription::from_qt_packet(&mut asbd) {
                Ok(a) => a,
                Err(e) => return Err(e),
            };
            return Ok(FormatDescriptor {
                media_type: MEDIA_TYPE_SOUND,
                video_dimension_width: 0,
                video_dimension_height: 0,
                codec: 0,
                extensions: None,
                avc1: None,
                audio_stream_basic_description: Some(a),
            });
        }
        if media_type != MEDIA_TYPE_VIDEO {
            return Err(QtError::InvalidValue);
        }
        let (mut vd, _) = match QTPacket::from_qt_packet_with_magic(pkt, MAGIC_VIDEO_DIMENSION) {
            Ok(x) => x,
            Err(e) => return Err(e),
        };
        let ghost nv = vd@.bytes;
        let width = match vd.read_u32() {
            Ok(v) => v,
            Err(e) => return Err(e),
        };
        let height = match vd.read_u32() {
            Ok(v) => v,
            Err(e) => return Err(e),
        };
        proof {
            assert(nv.subrange(8, nv.len() as int).subrange(0, 4) =~= nv.subrange(8, 12));
            assert(nv.subrange(12, nv.len() as int).subrange(0, 4) =~= nv.subrange(12, 16));
            assert(pkt@.rest() =~= b1.subrange(nv.len() as int, b1.len() as int));
        }
        let ghost b2 = pkt@.rest();
        let (mut cd, _) = match QTPacket::from_qt_packet_with_magic(pkt, MAGIC_CODEC) {
            Ok(x) => x,
            Err(e) => return Err(e),
        };
        let ghost nc = cd@.bytes;
        let codec = match cd.read_u32() {
            Ok(v) => v,
            Err(e) => return Err(e),
        };
        proof {
            assert(nc.subrange(8, nc.len() as int).subrange(0, 4) =~= nc.subrange(8, 12));
            assert(pkt@.rest() =~= b2.subrange(nc.len() as int, b2.len() as int));
        }
        let ghost b3 = pkt@.rest();
        let (mut ex, _) = match QTPacket::from_qt_packet_with_magic(pkt, MAGIC_EXTENSION) {
            Ok(x) => x,
            Err(e) => return Err(e),
        };
        let extensions = match read_values(&mut ex) {
            Ok(v) => v,
            Err(e) => return Err(e),
        };
        let avc1 = match avc_from_extensions(&extensions) {
            Ok(a) => a,
            Err(e) => return Err(e),
        };
        Ok(FormatDescriptor {
            media_type: MEDIA_TYPE_VIDEO,
            video_dimension_width: width,
            video_dimension_height: height,
            codec,
            extensions: Some(extensions),
            avc1,
            audio_stream_basic_description: None,
        })
    }
}

/// The AVCC record of the last extension that carries one.
fn avc_from_extensions(exts: &Vec<QTValue>) -> (r: Result<Option<AVC1>, QtError>)
    ensures
        match avc_of(values_view(exts@)) {
            Ok(Some(a)) => r is Ok && r->Ok_0 is Some && r->Ok_0->Some_0@ == a,
            Ok(None) => r is Ok && r->Ok_0 is None,
            Err(err) => r == Err::<Option<AVC1>, QtError>(err),
        },
{
    let ghost t = values_view(exts@);
    let mut cur: Option<AVC1> = None;
    let mut i: usize = 0;
    proof {
        crate::qt_value::lemma_values_view_len(exts@);
        assert(t.subrange(0, 0).len() == 0);
    }
    while i < exts.len()
        invariant
            i <= exts@.len(),
            t == values_view(exts@),
            t.len() == exts@.len(),
            avc_of(t.subrange(0, i as int)) == Ok::<Option<AvcModel>, QtError>(
                match cur {
                    Some(a) => Some(a@),
                    None => None,
                },
            ),
        decreases exts@.len() - i,
    {
        proof {
            lemma_values_view_index(exts@, i as int);
            assert(t.subrange(0, i + 1).drop_last() =~= t.subrange(0, i as int));
        }
        match avc_from_extension(&exts[i]) {
            Ok(Some(a)) => {
                cur = Some(a);
            },
            Ok(None) => {},
            Err(e) => {
                proof {
                    crate::wire::lemma_avc_of_err(t, i + 1);
                }
                return Err(e);
            },
        }
        i = i + 1;
    }
    assert(t.subrange(0, exts@.len() as int) =~= t);
    Ok(cur)
}

} // verus!
