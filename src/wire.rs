//! The mathematical model of the value tree and of the CoreMedia format
//! descriptor, and their wire grammar: how a model is encoded and how bytes
//! are parsed back.
use crate::bytes::{
    be_u16, le_u16, le_u32, le_u64, lemma_u16_round_trip, lemma_u32_round_trip, lemma_u64_round_trip,
    u16_le, u32_le, u64_le,
};
use crate::error::QtError;
use crate::qt_pkt::{node, take_node, take_node_with_magic};
use vstd::prelude::*;
use vstd::utf8::{
    decode_utf8, encode_utf8, encode_utf8_decode_utf8, encode_utf8_valid_utf8, valid_utf8,
};

verus! {

pub const MAGIC_KEY_VALUE_PAIR: u32 = 0x6B657976;
pub const MAGIC_KEY_STRING: u32 = 0x7374726B;
pub const MAGIC_KEY_BOOLEAN: u32 = 0x62756C76;
pub const MAGIC_KEY_DICTIONARY: u32 = 0x64696374;
pub const MAGIC_KEY_DATA_VALUE: u32 = 0x64617476;
pub const MAGIC_KEY_STRING_VALUE: u32 = 0x73747276;
pub const MAGIC_KEY_NUMBER_VALUE: u32 = 0x6E6D6276;
pub const MAGIC_KEY_IDX: u32 = 0x6964786B;
pub const MAGIC_FORMAT_DESCRIPTOR: u32 = 0x66647363;
pub const MAGIC_AUDIO_STREAM_DESCRIPTION: u32 = 0x61736264;
pub const MAGIC_VIDEO_DIMENSION: u32 = 0x7664696D;
pub const MAGIC_EXTENSION: u32 = 0x6578746E;
pub const MAGIC_MEDIA_TYPE: u32 = 0x6D646961;
pub const MAGIC_CODEC: u32 = 0x636F6463;
pub const MEDIA_TYPE_VIDEO: u32 = 0x76696465;
pub const MEDIA_TYPE_SOUND: u32 = 0x736F756E;
pub const CODEC_AVC1: u32 = 0x61766331;

/// Number subtypes of a 'nmbv' node.
pub const NUMBER_U32: u8 = 3;
pub const NUMBER_U64: u8 = 4;
pub const NUMBER_U32_ALIAS: u8 = 5;
pub const NUMBER_F64: u8 = 6;

/// Extension keys on the path to the AVCC record.
pub const EXTENSION_ATOMS_KEY: u16 = 49;
pub const AVCC_KEY: u16 = 105;

/// An audio stream description. The sample rate is the bit pattern of an
/// IEEE-754 double.
pub ghost struct AsbdModel {
    pub sample_rate: u64,
    pub format_id: u32,
    pub format_flags: u32,
    pub bytes_per_packet: u32,
    pub frames_per_packet: u32,
    pub bytes_per_frame: u32,
    pub channels_per_frame: u32,
    pub bits_per_channel: u32,
    pub reserved: u32,
}

/// A decoded AVCC record: the header fields and the last SPS and PPS.
pub ghost struct AvcModel {
    pub version: u8,
    pub profile: u8,
    pub compatibility: u8,
    pub level: u8,
    pub nalu_len: u8,
    pub sps: Option<Seq<u8>>,
    pub pps: Option<Seq<u8>>,
}

/// A format descriptor.
pub ghost struct FormatModel {
    pub media_type: u32,
    pub width: u32,
    pub height: u32,
    pub codec: u32,
    pub extensions: Option<Seq<QtNode>>,
    pub avc1: Option<AvcModel>,
    pub asbd: Option<AsbdModel>,
}

/// A node of the value tree. A float is the bit pattern of an IEEE-754 double.
pub ghost enum QtNode {
    StringKey(Seq<char>),
    StringValue(Seq<char>),
    Boolean(bool),
    KeyValuePair(Box<QtNode>, Box<QtNode>),
    Object(Seq<QtNode>),
    Float(u64),
    UInt32(u32),
    UInt64(u64),
    Data(Seq<u8>),
    IdxKey(u16),
    FormatDescriptor(Box<FormatModel>),
}

// ---------------------------------------------------------------- encoding

/// The 40 bytes of an audio stream description.
pub open spec fn asbd_fields(a: AsbdModel) -> Seq<u8> {
    u64_le(a.sample_rate) + u32_le(a.format_id) + u32_le(a.format_flags) + u32_le(
        a.bytes_per_packet,
    ) + u32_le(a.frames_per_packet) + u32_le(a.bytes_per_frame) + u32_le(a.channels_per_frame)
        + u32_le(a.bits_per_channel) + u32_le(a.reserved)
}

/// The container form: the fields, then the sample rate twice more.
pub open spec fn asbd_bytes(a: AsbdModel) -> Seq<u8> {
    asbd_fields(a) + u64_le(a.sample_rate) + u64_le(a.sample_rate)
}

pub open spec fn encode_value(v: QtNode) -> Seq<u8>
    decreases v,
{
    match v {
        QtNode::StringKey(s) => node(MAGIC_KEY_STRING, encode_utf8(s)),
        QtNode::StringValue(s) => node(MAGIC_KEY_STRING_VALUE, encode_utf8(s)),
        QtNode::Boolean(b) => node(MAGIC_KEY_BOOLEAN, seq![if b { 1u8 } else { 0u8 }]),
        QtNode::KeyValuePair(k, x) => node(
            MAGIC_KEY_VALUE_PAIR,
            encode_value(*k) + encode_value(*x),
        ),
        QtNode::Object(s) => node(MAGIC_KEY_DICTIONARY, encode_list(s)),
        QtNode::Float(f) => node(MAGIC_KEY_NUMBER_VALUE, seq![NUMBER_F64] + u64_le(f)),
        QtNode::UInt32(n) => node(MAGIC_KEY_NUMBER_VALUE, seq![NUMBER_U32] + u32_le(n)),
        QtNode::UInt64(n) => node(MAGIC_KEY_NUMBER_VALUE, seq![NUMBER_U64] + u64_le(n)),
        QtNode::Data(d) => node(MAGIC_KEY_DATA_VALUE, d),
        QtNode::IdxKey(i) => node(MAGIC_KEY_IDX, u16_le(i)),
        QtNode::FormatDescriptor(f) => node(MAGIC_FORMAT_DESCRIPTOR, encode_format(*f)),
    }
}

/// The nodes of `s`, one after the other.
pub open spec fn encode_list(s: Seq<QtNode>) -> Seq<u8>
    decreases s,
{
    if s.len() == 0 {
        Seq::empty()
    } else {
        encode_value(s[0]) + encode_list(s.subrange(1, s.len() as int))
    }
}

/// The children of a 'fdsc' node.
pub open spec fn encode_format(f: FormatModel) -> Seq<u8>
    decreases f,
{
    if f.media_type == MEDIA_TYPE_SOUND {
        node(MAGIC_MEDIA_TYPE, u32_le(f.media_type)) + node(
            MAGIC_AUDIO_STREAM_DESCRIPTION,
            asbd_bytes(f.asbd.unwrap()),
        )
    } else {
        node(MAGIC_MEDIA_TYPE, u32_le(f.media_type)) + node(
            MAGIC_VIDEO_DIMENSION,
            u32_le(f.width) + u32_le(f.height),
        ) + node(MAGIC_CODEC, u32_le(f.codec)) + node(
            MAGIC_EXTENSION,
            match f.extensions {
                Some(e) => encode_list(e),
                None => Seq::empty(),
            },
        )
    }
}

// ----------------------------------------------------------------- parsing

/// The body of a leaf node with the given magic.
#[verifier::opaque]
pub open spec fn parse_leaf(magic: u32, body: Seq<u8>) -> Result<QtNode, QtError> {
    if magic == MAGIC_KEY_STRING {
        if valid_utf8(body) {
            Ok(QtNode::StringKey(decode_utf8(body)))
        } else {
            Err(QtError::InvalidValue)
        }
    } else if magic == MAGIC_KEY_STRING_VALUE {
        if valid_utf8(body) {
            Ok(QtNode::StringValue(decode_utf8(body)))
        } else {
            Err(QtError::InvalidValue)
        }
    } else if magic == MAGIC_KEY_BOOLEAN {
        if body.len() >= 1 && body[0] == 0 {
            Ok(QtNode::Boolean(false))
        } else if body.len() >= 1 && body[0] == 1 {
            Ok(QtNode::Boolean(true))
        } else {
            Err(QtError::InvalidValue)
        }
    } else if magic == MAGIC_KEY_DATA_VALUE {
        Ok(QtNode::Data(body))
    } else if magic == MAGIC_KEY_NUMBER_VALUE {
        if body.len() >= 9 && body[0] == NUMBER_F64 {
            Ok(QtNode::Float(le_u64(body.subrange(1, 9))))
        } else if body.len() >= 9 && body[0] == NUMBER_U64 {
            Ok(QtNode::UInt64(le_u64(body.subrange(1, 9))))
        } else if body.len() >= 5 && (body[0] == NUMBER_U32 || body[0] == NUMBER_U32_ALIAS) {
            Ok(QtNode::UInt32(le_u32(body.subrange(1, 5))))
        } else {
            Err(QtError::InvalidValue)
        }
    } else if magic == MAGIC_KEY_IDX {
        if body.len() >= 2 {
            Ok(QtNode::IdxKey(le_u16(body.subrange(0, 2))))
        } else {
            Err(QtError::InvalidValue)
        }
    } else {
        Err(QtError::InvalidValue)
    }
}

/// The node that opens `b`, and how many bytes it took.
pub open spec fn parse_value(b: Seq<u8>) -> Result<(QtNode, nat), QtError>
    decreases b.len(), 1nat,
{
    if b.len() < 8 {
        Err(QtError::UnexpectedEof)
    } else {
        let len = le_u32(b.subrange(0, 4)) as int;
        let magic = le_u32(b.subrange(4, 8));
        if len < 8 {
            Err(QtError::InvalidValue)
        } else if b.len() < len {
            Err(QtError::UnexpectedEof)
        } else if magic == MAGIC_KEY_VALUE_PAIR {
            let body = b.subrange(8, len);
            match parse_value(body) {
                Err(e) => Err(e),
                Ok((k, kn)) => if kn <= body.len() {
                    match parse_value(body.subrange(kn as int, body.len() as int)) {
                        Err(e) => Err(e),
                        Ok((x, xn)) => if kn + xn == body.len() {
                            Ok((QtNode::KeyValuePair(Box::new(k), Box::new(x)), len as nat))
                        } else {
                            Err(QtError::InvalidValue)
                        },
                    }
                } else {
                    Err(QtError::UnexpectedEof)
                },
            }
        } else if magic == MAGIC_KEY_DICTIONARY {
            match parse_list(b.subrange(8, len)) {
                Err(e) => Err(e),
                Ok(s) => Ok((QtNode::Object(s), len as nat)),
            }
        } else if magic == MAGIC_FORMAT_DESCRIPTOR {
            match parse_format(b.subrange(8, len)) {
                Err(e) => Err(e),
                Ok((f, _)) => Ok((QtNode::FormatDescriptor(Box::new(f)), len as nat)),
            }
        } else {
            match parse_leaf(magic, b.subrange(8, len)) {
                Err(e) => Err(e),
                Ok(v) => Ok((v, len as nat)),
            }
        }
    }
}

/// The nodes that fill `b` exactly.
pub open spec fn parse_list(b: Seq<u8>) -> Result<Seq<QtNode>, QtError>
    decreases b.len(), 2nat,
{
    if b.len() == 0 {
        Ok(Seq::empty())
    } else {
        match parse_value(b) {
            Err(e) => Err(e),
            Ok((v, n)) => if 0 < n <= b.len() {
                match parse_list(b.subrange(n as int, b.len() as int)) {
                    Err(e) => Err(e),
                    Ok(s) => Ok(seq![v] + s),
                }
            } else {
                Err(QtError::UnexpectedEof)
            },
        }
    }
}

/// The 40 bytes of an audio stream description at the start of `b`.
pub open spec fn parse_asbd(b: Seq<u8>) -> Result<AsbdModel, QtError> {
    if b.len() < 40 {
        Err(QtError::UnexpectedEof)
    } else {
        Ok(
            AsbdModel {
                sample_rate: le_u64(b.subrange(0, 8)),
                format_id: le_u32(b.subrange(8, 12)),
                format_flags: le_u32(b.subrange(12, 16)),
                bytes_per_packet: le_u32(b.subrange(16, 20)),
                frames_per_packet: le_u32(b.subrange(20, 24)),
                bytes_per_frame: le_u32(b.subrange(24, 28)),
                channels_per_frame: le_u32(b.subrange(28, 32)),
                bits_per_channel: le_u32(b.subrange(32, 36)),
                reserved: le_u32(b.subrange(36, 40)),
            },
        )
    }
}

/// `count` length-prefixed NAL units at the start of `b`: the last of them,
/// and how many bytes they took.
pub open spec fn parse_nalus(b: Seq<u8>, count: nat) -> Result<(Option<Seq<u8>>, nat), QtError>
    decreases count,
{
    if count == 0 {
        Ok((None, 0))
    } else if b.len() < 2 {
        Err(QtError::UnexpectedEof)
    } else if b.len() < 2 + be_u16(b.subrange(0, 2)) {
        Err(QtError::UnexpectedEof)
    } else {
        let n = be_u16(b.subrange(0, 2)) as int;
        match parse_nalus(b.subrange(2 + n, b.len() as int), (count - 1) as nat) {
            Err(e) => Err(e),
            Ok((last, used)) => Ok(
                (
                    match last {
                        Some(l) => Some(l),
                        None => Some(b.subrange(2, 2 + n)),
                    },
                    (2 + n + used) as nat,
                ),
            ),
        }
    }
}

/// An AVCC record.
pub open spec fn parse_avcc(b: Seq<u8>) -> Result<AvcModel, QtError> {
    if b.len() < 6 {
        Err(QtError::UnexpectedEof)
    } else {
        match parse_nalus(b.subrange(6, b.len() as int), (b[5] & 0x1f) as nat) {
            Err(e) => Err(e),
            Ok((sps, used)) => {
                let at = 6 + used as int;
                if b.len() < at + 1 {
                    Err(QtError::UnexpectedEof)
                } else {
                    match parse_nalus(b.subrange(at + 1, b.len() as int), (b[at] & 0x1f) as nat) {
                        Err(e) => Err(e),
                        Ok((pps, _)) => Ok(
                            AvcModel {
                                version: b[0],
                                profile: b[1],
                                compatibility: b[2],
                                level: b[3],
                                nalu_len: ((b[4] & 3) + 1) as u8,
                                sps,
                                pps,
                            },
                        ),
                    }
                }
            },
        }
    }
}

/// The AVCC record that an extension carries, if it follows the path
/// IdxKey(49) => Dictionary whose first entry is IdxKey(105) => Data.
pub open spec fn avc_of_extension(e: QtNode) -> Result<Option<AvcModel>, QtError> {
    match e {
        QtNode::KeyValuePair(k, x) => match (*k, *x) {
            (QtNode::IdxKey(a), QtNode::Object(obj)) => if a == EXTENSION_ATOMS_KEY && obj.len()
                > 0 {
                match obj[0] {
                    QtNode::KeyValuePair(k2, x2) => match (*k2, *x2) {
                        (QtNode::IdxKey(c), QtNode::Data(d)) => if c == AVCC_KEY {
                            match parse_avcc(d) {
                                Err(e) => Err(e),
                                Ok(a) => Ok(Some(a)),
                            }
                        } else {
                            Ok(None)
                        },
                        _ => Ok(None),
                    },
                    _ => Ok(None),
                }
            } else {
                Ok(None)
            },
            _ => Ok(None),
        },
        _ => Ok(None),
    }
}

/// The AVCC record of the last extension that carries one.
pub open spec fn avc_of(s: Seq<QtNode>) -> Result<Option<AvcModel>, QtError>
    decreases s.len(),
{
    if s.len() == 0 {
        Ok(None)
    } else {
        match avc_of(s.drop_last()) {
            Err(e) => Err(e),
            Ok(prev) => match avc_of_extension(s.last()) {
                Err(e) => Err(e),
                Ok(Some(a)) => Ok(Some(a)),
                Ok(None) => Ok(prev),
            },
        }
    }
}

/// The children of a 'fdsc' node at the start of `b`, and how many bytes
/// they took.
pub open spec fn parse_format(b: Seq<u8>) -> Result<(FormatModel, nat), QtError>
    decreases b.len(), 1nat,
{
    match take_node_with_magic(b, MAGIC_MEDIA_TYPE) {
        Err(e) => Err(e),
        Ok(mdia) => if mdia.len() < 12 {
            Err(QtError::UnexpectedEof)
        } else {
            let media_type = le_u32(mdia.subrange(8, 12));
            let b1 = b.subrange(mdia.len() as int, b.len() as int);
            if media_type == MEDIA_TYPE_SOUND {
                match take_node_with_magic(b1, MAGIC_AUDIO_STREAM_DESCRIPTION) {
                    Err(e) => Err(e),
                    Ok(n) => match parse_asbd(n.subrange(8, n.len() as int)) {
                        Err(e) => Err(e),
                        Ok(a) => Ok(
                            (
                                FormatModel {
                                    media_type,
                                    width: 0,
                                    height: 0,
                                    codec: 0,
                                    extensions: None,
                                    avc1: None,
                                    asbd: Some(a),
                                },
                                mdia.len() + n.len(),
                            ),
                        ),
                    },
                }
            } else if media_type == MEDIA_TYPE_VIDEO {
                match take_node_with_magic(b1, MAGIC_VIDEO_DIMENSION) {
                    Err(e) => Err(e),
                    Ok(vd) => if vd.len() < 16 {
                        Err(QtError::UnexpectedEof)
                    } else {
                        let b2 = b1.subrange(vd.len() as int, b1.len() as int);
                        match take_node_with_magic(b2, MAGIC_CODEC) {
                            Err(e) => Err(e),
                            Ok(cd) => if cd.len() < 12 {
                                Err(QtError::UnexpectedEof)
                            } else {
                                let b3 = b2.subrange(cd.len() as int, b2.len() as int);
                                match take_node_with_magic(b3, MAGIC_EXTENSION) {
                                    Err(e) => Err(e),
                                    Ok(ex) => match parse_list(ex.subrange(8, ex.len() as int)) {
                                        Err(e) => Err(e),
                                        Ok(exts) => match avc_of(exts) {
                                            Err(e) => Err(e),
                                            Ok(avc1) => Ok(
                                                (
                                                    FormatModel {
                                                        media_type,
                                                        width: le_u32(vd.subrange(8, 12)),
                                                        height: le_u32(vd.subrange(12, 16)),
                                                        codec: le_u32(cd.subrange(8, 12)),
                                                        extensions: Some(exts),
                                                        avc1,
                                                        asbd: None,
                                                    },
                                                    mdia.len() + vd.len() + cd.len() + ex.len(),
                                                ),
                                            ),
                                        },
                                    },
                                }
                            },
                        }
                    },
                }
            } else {
                Err(QtError::InvalidValue)
            }
        },
    }
}

// ------------------------------------------------------------ round trip

/// A value that the parser can give back: every format descriptor in it is
/// one that parsing yields (audio with its description and nothing else;
/// video with extensions, and the AVCC record that they carry).
pub open spec fn value_wf(v: QtNode) -> bool
    decreases v,
{
    match v {
        QtNode::KeyValuePair(k, x) => value_wf(*k) && value_wf(*x),
        QtNode::Object(s) => list_wf(s),
        QtNode::FormatDescriptor(f) => format_wf(*f),
        _ => true,
    }
}

pub open spec fn list_wf(s: Seq<QtNode>) -> bool
    decreases s,
{
    s.len() == 0 || (value_wf(s[0]) && list_wf(s.subrange(1, s.len() as int)))
}

pub open spec fn format_wf(f: FormatModel) -> bool
    decreases f,
{
    if f.media_type == MEDIA_TYPE_SOUND {
        &&& f.asbd is Some
        &&& f.width == 0 && f.height == 0 && f.codec == 0
        &&& f.extensions is None && f.avc1 is None
    } else if f.media_type == MEDIA_TYPE_VIDEO {
        &&& f.asbd is None
        &&& f.extensions is Some
        &&& list_wf(f.extensions.unwrap())
        &&& avc_of(f.extensions.unwrap()) == Ok::<Option<AvcModel>, QtError>(f.avc1)
    } else {
        false
    }
}

/// What a node opens with: its length, its magic, its payload, then `tail`.
pub proof fn lemma_node(magic: u32, payload: Seq<u8>, tail: Seq<u8>)
    requires
        payload.len() + 8 <= u32::MAX,
    ensures
        ({
            let b = node(magic, payload) + tail;
            &&& node(magic, payload).len() == payload.len() + 8
            &&& b.len() >= 8
            &&& le_u32(b.subrange(0, 4)) == payload.len() + 8
            &&& le_u32(b.subrange(4, 8)) == magic
            &&& b.subrange(8, payload.len() + 8 as int) == payload
            &&& b.subrange(8, b.len() as int) == payload + tail
            &&& b.subrange(payload.len() + 8 as int, b.len() as int) == tail
        }),
{
    let b = node(magic, payload) + tail;
    let n = (payload.len() + 8 as int) as u32;
    lemma_u32_round_trip(n);
    lemma_u32_round_trip(magic);
    assert(b.subrange(0, 4) =~= u32_le(n));
    assert(b.subrange(4, 8) =~= u32_le(magic));
    assert(b.subrange(8, payload.len() + 8 as int) =~= payload);
    assert(b.subrange(8, b.len() as int) =~= payload + tail);
    assert(b.subrange(payload.len() + 8 as int, b.len() as int) =~= tail);
}

/// A list's encoding is its first node's, then the rest's.
proof fn lemma_list_len(s: Seq<QtNode>)
    requires
        s.len() > 0,
    ensures
        encode_list(s).len() == encode_value(s[0]).len() + encode_list(
            s.subrange(1, s.len() as int),
        ).len(),
{
}

/// Every node is at least its length and its magic.
pub proof fn lemma_encode_len(v: QtNode)
    ensures
        encode_value(v).len() >= 8,
{
}

/// A leaf: its body is parsed back to it.
proof fn lemma_leaf_round_trip(v: QtNode, tail: Seq<u8>)
    requires
        encode_value(v).len() <= u32::MAX,
        !(v is KeyValuePair || v is Object || v is FormatDescriptor),
    ensures
        parse_value(encode_value(v) + tail) == Ok::<(QtNode, nat), QtError>(
            (v, encode_value(v).len()),
        ),
{
    reveal(parse_leaf);
    match v {
        QtNode::StringKey(s) => {
            lemma_node(MAGIC_KEY_STRING, encode_utf8(s), tail);
            encode_utf8_valid_utf8(s);
            encode_utf8_decode_utf8(s);
        },
        QtNode::StringValue(s) => {
            lemma_node(MAGIC_KEY_STRING_VALUE, encode_utf8(s), tail);
            encode_utf8_valid_utf8(s);
            encode_utf8_decode_utf8(s);
        },
        QtNode::Boolean(x) => {
            lemma_node(MAGIC_KEY_BOOLEAN, seq![if x { 1u8 } else { 0u8 }], tail);
        },
        QtNode::Float(f) => {
            let p = seq![NUMBER_F64] + u64_le(f);
            lemma_node(MAGIC_KEY_NUMBER_VALUE, p, tail);
            assert(p.subrange(1, 9) =~= u64_le(f));
            lemma_u64_round_trip(f);
        },
        QtNode::UInt32(n) => {
            let p = seq![NUMBER_U32] + u32_le(n);
            lemma_node(MAGIC_KEY_NUMBER_VALUE, p, tail);
            assert(p.subrange(1, 5) =~= u32_le(n));
            lemma_u32_round_trip(n);
        },
        QtNode::UInt64(n) => {
            let p = seq![NUMBER_U64] + u64_le(n);
            lemma_node(MAGIC_KEY_NUMBER_VALUE, p, tail);
            assert(p.subrange(1, 9) =~= u64_le(n));
            lemma_u64_round_trip(n);
        },
        QtNode::Data(d) => {
            lemma_node(MAGIC_KEY_DATA_VALUE, d, tail);
        },
        QtNode::IdxKey(i) => {
            lemma_node(MAGIC_KEY_IDX, u16_le(i), tail);
            assert(u16_le(i).subrange(0, 2) =~= u16_le(i));
            lemma_u16_round_trip(i);
        },
        _ => {},
    }
}

/// A pair is parsed back from the parses of its key and its value.
proof fn lemma_pair_parse(k: QtNode, x: QtNode, tail: Seq<u8>)
    requires
        encode_value(QtNode::KeyValuePair(Box::new(k), Box::new(x))).len() <= u32::MAX,
        parse_value(encode_value(k) + encode_value(x)) == Ok::<(QtNode, nat), QtError>(
            (k, encode_value(k).len()),
        ),
        parse_value(encode_value(x)) == Ok::<(QtNode, nat), QtError>(
            (x, encode_value(x).len()),
        ),
    ensures
        ({
            let v = QtNode::KeyValuePair(Box::new(k), Box::new(x));
            parse_value(encode_value(v) + tail) == Ok::<(QtNode, nat), QtError>(
                (v, encode_value(v).len()),
            )
        }),
{
    let ek = encode_value(k);
    let ex = encode_value(x);
    let b = node(MAGIC_KEY_VALUE_PAIR, ek + ex) + tail;
    lemma_node(MAGIC_KEY_VALUE_PAIR, ek + ex, tail);
    let body = b.subrange(8, ek.len() + ex.len() + 8 as int);
    assert(body == ek + ex);
    assert(body.subrange(ek.len() as int, body.len() as int) =~= ex);
}

/// A dictionary is parsed back from the parse of its entries.
proof fn lemma_object_parse(s: Seq<QtNode>, tail: Seq<u8>)
    requires
        encode_list(s).len() + 8 <= u32::MAX,
        parse_list(encode_list(s)) == Ok::<Seq<QtNode>, QtError>(s),
    ensures
        parse_value(encode_value(QtNode::Object(s)) + tail) == Ok::<(QtNode, nat), QtError>(
            (QtNode::Object(s), encode_value(QtNode::Object(s)).len()),
        ),
{
    let b = encode_value(QtNode::Object(s)) + tail;
    lemma_node(MAGIC_KEY_DICTIONARY, encode_list(s), tail);
    assert(b == node(MAGIC_KEY_DICTIONARY, encode_list(s)) + tail);
    let len = le_u32(b.subrange(0, 4)) as int;
    assert(len == encode_list(s).len() + 8);
    assert(b.subrange(8, len) == encode_list(s));
    assert(le_u32(b.subrange(4, 8)) == MAGIC_KEY_DICTIONARY);
    assert(parse_value(b) == Ok::<(QtNode, nat), QtError>((QtNode::Object(s), len as nat)));
}

/// A format descriptor node is parsed back from the parse of its children.
proof fn lemma_format_node_parse(f: FormatModel, tail: Seq<u8>)
    requires
        encode_format(f).len() + 8 <= u32::MAX,
        parse_format(encode_format(f)) matches Ok((g, _)) && g == f,
    ensures
        ({
            let v = QtNode::FormatDescriptor(Box::new(f));
            parse_value(encode_value(v) + tail) == Ok::<(QtNode, nat), QtError>(
                (v, encode_value(v).len()),
            )
        }),
{
    lemma_node(MAGIC_FORMAT_DESCRIPTOR, encode_format(f), tail);
}

/// Parsing the encoding of a value gives the value back, and takes exactly
/// its encoding, whatever follows it.
pub proof fn lemma_value_round_trip(v: QtNode, tail: Seq<u8>)
    requires
        value_wf(v),
        encode_value(v).len() <= u32::MAX,
    ensures
        parse_value(encode_value(v) + tail) == Ok::<(QtNode, nat), QtError>(
            (v, encode_value(v).len()),
        ),
    decreases v,
{
    match v {
        QtNode::KeyValuePair(k, x) => {
            lemma_value_round_trip(*k, encode_value(*x));
            lemma_value_round_trip(*x, Seq::empty());
            assert(encode_value(*x) + Seq::<u8>::empty() =~= encode_value(*x));
            lemma_pair_parse(*k, *x, tail);
        },
        QtNode::Object(s) => {
            lemma_list_round_trip(s);
            lemma_object_parse(s, tail);
        },
        QtNode::FormatDescriptor(f) => {
            lemma_format_round_trip(*f);
            lemma_format_node_parse(*f, tail);
        },
        _ => {
            lemma_leaf_round_trip(v, tail);
        },
    }
}

/// Parsing the encoding of a list gives the list back.
pub proof fn lemma_list_round_trip(s: Seq<QtNode>)
    requires
        list_wf(s),
        encode_list(s).len() <= u32::MAX,
    ensures
        parse_list(encode_list(s)) == Ok::<Seq<QtNode>, QtError>(s),
    decreases s,
{
    if s.len() > 0 {
        let rest = s.subrange(1, s.len() as int);
        lemma_list_len(s);
        lemma_encode_len(s[0]);
        lemma_value_round_trip(s[0], encode_list(rest));
        lemma_list_round_trip(rest);
        lemma_list_parse_step(s);
    } else {
        assert(encode_list(s) =~= Seq::<u8>::empty());
        assert(s =~= Seq::<QtNode>::empty());
    }
}

/// A list is parsed back from the parses of its first node and the rest.
proof fn lemma_list_parse_step(s: Seq<QtNode>)
    requires
        s.len() > 0,
        encode_value(s[0]).len() >= 8,
        parse_value(encode_value(s[0]) + encode_list(s.subrange(1, s.len() as int))) == Ok::<
            (QtNode, nat),
            QtError,
        >((s[0], encode_value(s[0]).len())),
        parse_list(encode_list(s.subrange(1, s.len() as int))) == Ok::<Seq<QtNode>, QtError>(
            s.subrange(1, s.len() as int),
        ),
    ensures
        parse_list(encode_list(s)) == Ok::<Seq<QtNode>, QtError>(s),
{
    let rest = s.subrange(1, s.len() as int);
    let b = encode_list(s);
    let n = encode_value(s[0]).len();
    assert(b == encode_value(s[0]) + encode_list(rest));
    assert(b.subrange(n as int, b.len() as int) =~= encode_list(rest));
    assert(seq![s[0]] + rest =~= s);
    assert(b.len() > 0);
    assert(parse_value(b) == Ok::<(QtNode, nat), QtError>((s[0], n)));
    assert(parse_list(b.subrange(n as int, b.len() as int)) == Ok::<Seq<QtNode>, QtError>(rest));
}

/// Parsing the children of a 'fdsc' node gives the descriptor back.
pub proof fn lemma_format_round_trip(f: FormatModel)
    requires
        format_wf(f),
        encode_format(f).len() <= u32::MAX,
    ensures
        parse_format(encode_format(f)) matches Ok((g, _)) && g == f,
    decreases f,
{
    if f.media_type == MEDIA_TYPE_SOUND {
        lemma_audio_format_round_trip(f);
    } else {
        let e = f.extensions.unwrap();
        assert(encode_format(f).len() >= encode_list(e).len());
        lemma_list_round_trip(e);
        lemma_video_format_round_trip(f);
    }
}

proof fn lemma_audio_format_round_trip(f: FormatModel)
    requires
        format_wf(f),
        f.media_type == MEDIA_TYPE_SOUND,
        encode_format(f).len() <= u32::MAX,
    ensures
        parse_format(encode_format(f)) matches Ok((g, _)) && g == f,
{
    let b = encode_format(f);
    let mdia = node(MAGIC_MEDIA_TYPE, u32_le(f.media_type));
    lemma_u32_round_trip(f.media_type);
    let a = f.asbd.unwrap();
    let asbd = node(MAGIC_AUDIO_STREAM_DESCRIPTION, asbd_bytes(a));
    lemma_node_taken(MAGIC_MEDIA_TYPE, u32_le(f.media_type), asbd);
    assert(mdia.subrange(8, 12) =~= u32_le(f.media_type));
    let b1 = b.subrange(mdia.len() as int, b.len() as int);
    assert(b1 =~= asbd + Seq::<u8>::empty());
    lemma_node_taken(MAGIC_AUDIO_STREAM_DESCRIPTION, asbd_bytes(a), Seq::empty());
    assert(asbd.subrange(8, asbd.len() as int) =~= asbd_bytes(a));
    lemma_asbd_round_trip(a);
}

#[verifier::rlimit(60)]
proof fn lemma_video_format_round_trip(f: FormatModel)
    requires
        format_wf(f),
        f.media_type == MEDIA_TYPE_VIDEO,
        encode_format(f).len() <= u32::MAX,
        parse_list(encode_list(f.extensions.unwrap())) == Ok::<Seq<QtNode>, QtError>(
            f.extensions.unwrap(),
        ),
    ensures
        parse_format(encode_format(f)) matches Ok((g, _)) && g == f,
{
    let b = encode_format(f);
    let mdia = node(MAGIC_MEDIA_TYPE, u32_le(f.media_type));
    lemma_u32_round_trip(f.media_type);
    let e = f.extensions.unwrap();
    let vd = node(MAGIC_VIDEO_DIMENSION, u32_le(f.width) + u32_le(f.height));
    let cd = node(MAGIC_CODEC, u32_le(f.codec));
    let ex = node(MAGIC_EXTENSION, encode_list(e));
    assert(b =~= mdia + (vd + (cd + ex)));
    lemma_node_taken(MAGIC_MEDIA_TYPE, u32_le(f.media_type), vd + (cd + ex));
    assert(mdia.subrange(8, 12) =~= u32_le(f.media_type));
    let b1 = b.subrange(mdia.len() as int, b.len() as int);
    assert(b1 =~= vd + (cd + ex));
    lemma_node_taken(MAGIC_VIDEO_DIMENSION, u32_le(f.width) + u32_le(f.height), cd + ex);
    assert(vd.subrange(8, 12) =~= u32_le(f.width));
    assert(vd.subrange(12, 16) =~= u32_le(f.height));
    lemma_u32_round_trip(f.width);
    lemma_u32_round_trip(f.height);
    let b2 = b1.subrange(vd.len() as int, b1.len() as int);
    assert(b2 =~= cd + ex);
    lemma_node_taken(MAGIC_CODEC, u32_le(f.codec), ex);
    assert(cd.subrange(8, 12) =~= u32_le(f.codec));
    lemma_u32_round_trip(f.codec);
    let b3 = b2.subrange(cd.len() as int, b2.len() as int);
    assert(b3 =~= ex + Seq::<u8>::empty());
    lemma_node_taken(MAGIC_EXTENSION, encode_list(e), Seq::empty());
}

/// A node followed by `tail` is taken whole by `take_node_with_magic`.
pub proof fn lemma_node_taken(magic: u32, payload: Seq<u8>, tail: Seq<u8>)
    requires
        payload.len() + 8 <= u32::MAX,
    ensures
        take_node_with_magic(node(magic, payload) + tail, magic) == Ok::<Seq<u8>, QtError>(
            node(magic, payload),
        ),
        take_node(node(magic, payload) + tail) == Ok::<Seq<u8>, QtError>(node(magic, payload)),
        node(magic, payload).subrange(8, payload.len() + 8 as int) == payload,
        node(magic, payload).subrange(8, node(magic, payload).len() as int) == payload,
{
    let b = node(magic, payload) + tail;
    lemma_node(magic, payload, tail);
    assert(b.subrange(0, payload.len() + 8 as int) =~= node(magic, payload));
    let n = node(magic, payload);
    assert(n.subrange(4, 8) =~= b.subrange(4, 8));
    assert(n.subrange(8, payload.len() + 8 as int) =~= payload);
    assert(n.subrange(8, n.len() as int) =~= payload);
}

/// Parsing the bytes of a description gives it back.
pub proof fn lemma_asbd_round_trip(a: AsbdModel)
    ensures
        parse_asbd(asbd_bytes(a)) == Ok::<AsbdModel, QtError>(a),
        parse_asbd(asbd_fields(a)) == Ok::<AsbdModel, QtError>(a),
{
    let b = asbd_bytes(a);
    let c = asbd_fields(a);
    assert(b.subrange(0, 8) =~= u64_le(a.sample_rate));
    assert(b.subrange(8, 12) =~= u32_le(a.format_id));
    assert(b.subrange(12, 16) =~= u32_le(a.format_flags));
    assert(b.subrange(16, 20) =~= u32_le(a.bytes_per_packet));
    assert(b.subrange(20, 24) =~= u32_le(a.frames_per_packet));
    assert(b.subrange(24, 28) =~= u32_le(a.bytes_per_frame));
    assert(b.subrange(28, 32) =~= u32_le(a.channels_per_frame));
    assert(b.subrange(32, 36) =~= u32_le(a.bits_per_channel));
    assert(b.subrange(36, 40) =~= u32_le(a.reserved));
    assert(c.subrange(0, 8) =~= u64_le(a.sample_rate));
    assert(c.subrange(8, 12) =~= u32_le(a.format_id));
    assert(c.subrange(12, 16) =~= u32_le(a.format_flags));
    assert(c.subrange(16, 20) =~= u32_le(a.bytes_per_packet));
    assert(c.subrange(20, 24) =~= u32_le(a.frames_per_packet));
    assert(c.subrange(24, 28) =~= u32_le(a.bytes_per_frame));
    assert(c.subrange(28, 32) =~= u32_le(a.channels_per_frame));
    assert(c.subrange(32, 36) =~= u32_le(a.bits_per_channel));
    assert(c.subrange(36, 40) =~= u32_le(a.reserved));
    lemma_u64_round_trip(a.sample_rate);
    lemma_u32_round_trip(a.format_id);
    lemma_u32_round_trip(a.format_flags);
    lemma_u32_round_trip(a.bytes_per_packet);
    lemma_u32_round_trip(a.frames_per_packet);
    lemma_u32_round_trip(a.bytes_per_frame);
    lemma_u32_round_trip(a.channels_per_frame);
    lemma_u32_round_trip(a.bits_per_channel);
    lemma_u32_round_trip(a.reserved);
}

// ------------------------------------------------------------ encodability

/// A value that can be written: every format descriptor in it is sound with
/// a stream description, or video.
pub open spec fn encodable(v: QtNode) -> bool
    decreases v,
{
    match v {
        QtNode::KeyValuePair(k, x) => encodable(*k) && encodable(*x),
        QtNode::Object(s) => list_encodable(s),
        QtNode::FormatDescriptor(f) => format_encodable(*f),
        _ => true,
    }
}

pub open spec fn list_encodable(s: Seq<QtNode>) -> bool
    decreases s,
{
    s.len() == 0 || (encodable(s[0]) && list_encodable(s.subrange(1, s.len() as int)))
}

pub open spec fn format_encodable(f: FormatModel) -> bool
    decreases f,
{
    if f.media_type == MEDIA_TYPE_SOUND {
        f.asbd is Some
    } else if f.media_type == MEDIA_TYPE_VIDEO {
        match f.extensions {
            Some(e) => list_encodable(e),
            None => true,
        }
    } else {
        false
    }
}

/// Appending a node to a list appends its encoding.
pub proof fn lemma_encode_list_push(t: Seq<QtNode>, y: QtNode)
    ensures
        encode_list(t.push(y)) == encode_list(t) + encode_value(y),
        list_encodable(t.push(y)) == (list_encodable(t) && encodable(y)),
    decreases t.len(),
{
    assert(t.push(y)[0] == if t.len() == 0 { y } else { t[0] });
    if t.len() == 0 {
        assert(t.push(y).subrange(1, 1) =~= Seq::<QtNode>::empty());
        assert(list_encodable(Seq::<QtNode>::empty()));
        assert(encode_list(Seq::<QtNode>::empty()) =~= Seq::<u8>::empty());
        assert(encode_list(t) =~= Seq::<u8>::empty());
        assert(encode_value(y) + Seq::<u8>::empty() =~= encode_value(y));
        assert(Seq::<u8>::empty() + encode_value(y) =~= encode_value(y));
    } else {
        let rest = t.subrange(1, t.len() as int);
        lemma_encode_list_push(rest, y);
        assert(t.push(y).subrange(1, t.len() + 1 as int) =~= rest.push(y));
        assert(encode_value(t[0]) + (encode_list(rest) + encode_value(y)) =~= encode_value(t[0])
            + encode_list(rest) + encode_value(y));
    }
}

/// Each node of a list is part of its encoding, and encodable if the list is.
pub proof fn lemma_encode_list_member(t: Seq<QtNode>, i: int)
    requires
        0 <= i < t.len(),
    ensures
        encode_list(t).len() >= encode_value(t[i]).len(),
        list_encodable(t) ==> encodable(t[i]),
    decreases t.len(),
{
    if i > 0 {
        let rest = t.subrange(1, t.len() as int);
        lemma_encode_list_member(rest, i - 1);
    }
}

/// What a successful parse takes: at least a header, at most the input.
pub proof fn lemma_parse_value_len(b: Seq<u8>)
    ensures
        parse_value(b) matches Ok((_, n)) ==> 8 <= n <= b.len(),
{
}

/// The header of a node holds the node's length.
pub proof fn lemma_node_header(magic: u32, payload: Seq<u8>)
    requires
        payload.len() + 8 <= u32::MAX,
    ensures
        node(magic, payload).subrange(0, 4) == u32_le(node(magic, payload).len() as u32),
{
    assert(node(magic, payload).subrange(0, 4) =~= u32_le((payload.len() + 8) as u32));
}

/// The header of an encoded value holds its length.
pub proof fn lemma_encode_header(v: QtNode)
    requires
        encode_value(v).len() <= u32::MAX,
    ensures
        encode_value(v).subrange(0, 4) == u32_le(encode_value(v).len() as u32),
{
    let e = encode_value(v);
    assert(e.subrange(0, 4) =~= u32_le(e.len() as u32)) by {
        match v {
            QtNode::StringKey(s) => lemma_node_header(MAGIC_KEY_STRING, encode_utf8(s)),
            QtNode::StringValue(s) => lemma_node_header(MAGIC_KEY_STRING_VALUE, encode_utf8(s)),
            QtNode::Boolean(x) => lemma_node_header(
                MAGIC_KEY_BOOLEAN,
                seq![if x { 1u8 } else { 0u8 }],
            ),
            QtNode::KeyValuePair(k, x) => lemma_node_header(
                MAGIC_KEY_VALUE_PAIR,
                encode_value(*k) + encode_value(*x),
            ),
            QtNode::Object(s) => lemma_node_header(MAGIC_KEY_DICTIONARY, encode_list(s)),
            QtNode::Float(f) => lemma_node_header(
                MAGIC_KEY_NUMBER_VALUE,
                seq![NUMBER_F64] + u64_le(f),
            ),
            QtNode::UInt32(n) => lemma_node_header(
                MAGIC_KEY_NUMBER_VALUE,
                seq![NUMBER_U32] + u32_le(n),
            ),
            QtNode::UInt64(n) => lemma_node_header(
                MAGIC_KEY_NUMBER_VALUE,
                seq![NUMBER_U64] + u64_le(n),
            ),
            QtNode::Data(d) => lemma_node_header(MAGIC_KEY_DATA_VALUE, d),
            QtNode::IdxKey(i) => lemma_node_header(MAGIC_KEY_IDX, u16_le(i)),
            QtNode::FormatDescriptor(f) => lemma_node_header(
                MAGIC_FORMAT_DESCRIPTOR,
                encode_format(*f),
            ),
        }
    }
}

/// Where `nalus` stands after the units read so far: the last unit read,
/// then the parse of what is left.
pub open spec fn nalus_after(
    prev: Option<Seq<u8>>,
    used: nat,
    r: Result<(Option<Seq<u8>>, nat), QtError>,
) -> Result<(Option<Seq<u8>>, nat), QtError> {
    match r {
        Err(e) => Err(e),
        Ok((l, u)) => Ok(
            (
                match l {
                    Some(x) => Some(x),
                    None => prev,
                },
                used + u,
            ),
        ),
    }
}

/// Where a list stands after the nodes read so far.
pub open spec fn list_after(pre: Seq<QtNode>, r: Result<Seq<QtNode>, QtError>) -> Result<
    Seq<QtNode>,
    QtError,
> {
    match r {
        Err(e) => Err(e),
        Ok(s) => Ok(pre + s),
    }
}

/// Once a prefix of the extensions fails, all of them fail alike.
pub proof fn lemma_avc_of_err(s: Seq<QtNode>, k: int)
    requires
        0 <= k <= s.len(),
        avc_of(s.subrange(0, k)) is Err,
    ensures
        avc_of(s) == avc_of(s.subrange(0, k)),
    decreases s.len() - k,
{
    if k < s.len() {
        assert(s.subrange(0, k + 1).drop_last() =~= s.subrange(0, k));
        lemma_avc_of_err(s, k + 1);
    } else {
        assert(s.subrange(0, k) =~= s);
    }
}

/// A parsed value is one that the parser gives back.
pub proof fn lemma_parsed_value_wf(b: Seq<u8>)
    ensures
        parse_value(b) matches Ok((v, _)) ==> value_wf(v),
    decreases b.len(), 1nat,
{
    if b.len() >= 8 {
        let len = le_u32(b.subrange(0, 4)) as int;
        let magic = le_u32(b.subrange(4, 8));
        if len >= 8 && b.len() >= len {
            if magic == MAGIC_KEY_VALUE_PAIR {
                let body = b.subrange(8, len);
                lemma_parsed_value_wf(body);
                if let Ok((_, kn)) = parse_value(body) {
                    if kn <= body.len() {
                        lemma_parsed_value_wf(body.subrange(kn as int, body.len() as int));
                    }
                }
            } else if magic == MAGIC_KEY_DICTIONARY {
                lemma_parsed_list_wf(b.subrange(8, len));
            } else if magic == MAGIC_FORMAT_DESCRIPTOR {
                lemma_parsed_format_wf(b.subrange(8, len));
            } else {
                reveal(parse_leaf);
            }
        }
    }
}

/// Parsed lists are made of values that the parser gives back.
pub proof fn lemma_parsed_list_wf(b: Seq<u8>)
    ensures
        parse_list(b) matches Ok(s) ==> list_wf(s),
    decreases b.len(), 2nat,
{
    if b.len() > 0 {
        lemma_parsed_value_wf(b);
        if let Ok((v, n)) = parse_value(b) {
            if 0 < n <= b.len() {
                let rest = b.subrange(n as int, b.len() as int);
                lemma_parsed_list_wf(rest);
                if let Ok(t) = parse_list(rest) {
                    let s = seq![v] + t;
                    assert(s[0] == v);
                    assert(s.subrange(1, s.len() as int) =~= t);
                }
            }
        }
    }
}

/// A parsed descriptor is one that the parser gives back.
pub proof fn lemma_parsed_format_wf(b: Seq<u8>)
    ensures
        parse_format(b) matches Ok((f, _)) ==> format_wf(f),
    decreases b.len(), 1nat,
{
    if let Ok(mdia) = take_node_with_magic(b, MAGIC_MEDIA_TYPE) {
        if mdia.len() >= 12 {
            let b1 = b.subrange(mdia.len() as int, b.len() as int);
            if let Ok(vd) = take_node_with_magic(b1, MAGIC_VIDEO_DIMENSION) {
                if vd.len() >= 16 {
                    let b2 = b1.subrange(vd.len() as int, b1.len() as int);
                    if let Ok(cd) = take_node_with_magic(b2, MAGIC_CODEC) {
                        if cd.len() >= 12 {
                            let b3 = b2.subrange(cd.len() as int, b2.len() as int);
                            if let Ok(ex) = take_node_with_magic(b3, MAGIC_EXTENSION) {
                                lemma_parsed_list_wf(ex.subrange(8, ex.len() as int));
                            }
                        }
                    }
                }
            }
        }
    }
}

/// A descriptor parsed from bytes, written and parsed again, has the same
/// fields.
pub proof fn lemma_format_reencode(b: Seq<u8>)
    requires
        parse_format(b) matches Ok((f, _)) && encode_format(f).len() <= u32::MAX,
    ensures
        parse_format(b) matches Ok((f, _)) && parse_format(encode_format(f)) matches Ok((g, _))
            && g == f,
{
    lemma_parsed_format_wf(b);
    let f = parse_format(b)->Ok_0.0;
    lemma_format_round_trip(f);
}

} // verus!
