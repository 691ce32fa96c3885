//! The typed value tree: strings, numbers, booleans, data, key-value pairs,
//! dictionaries and format descriptors, and its wire codec.
use crate::coremedia::format_desc::{format_view, FormatDescriptor};
use crate::bytes::{read_u16_le, read_u32_le, read_u64_le};
use vstd::utf8::{decode_utf8, valid_utf8};
use crate::error::QtError;
use crate::qt_pkt::QTPacket;
use crate::bytes::{push_all, push_u16_le, push_u32_le, push_u64_le};
use crate::qt_pkt::{node, PacketView};
use crate::wire::{
    encodable, encode_list, encode_value, lemma_encode_header, lemma_encode_list_member,
    lemma_encode_list_push, lemma_parse_value_len, list_after, list_encodable, parse_leaf,
    parse_list, parse_value, QtNode, NUMBER_U32_ALIAS, MAGIC_FORMAT_DESCRIPTOR, MAGIC_KEY_BOOLEAN,
    MAGIC_KEY_DATA_VALUE, MAGIC_KEY_DICTIONARY, MAGIC_KEY_IDX, MAGIC_KEY_NUMBER_VALUE,
    MAGIC_KEY_STRING, MAGIC_KEY_STRING_VALUE, MAGIC_KEY_VALUE_PAIR, NUMBER_F64, NUMBER_U32,
    NUMBER_U64,
};
use vstd::prelude::*;

verus! {

/// A key and its value.
#[derive(Debug, PartialEq)]
pub struct QTKeyValuePair {
    pub key: QTValue,
    pub value: QTValue,
}

/// A node of the value tree. `Float` holds the bit pattern of an IEEE-754
/// double.
#[derive(Debug, PartialEq)]
pub enum QTValue {
    StringKey(String),
    StringValue(String),
    Boolean(bool),
    KeyValuePair(Box<QTKeyValuePair>),
    Object(Vec<QTValue>),
    Float(u64),
    UInt32(u32),
    UInt64(u64),
    Data(Vec<u8>),
    IdxKey(u16),
    FormatDescriptor(Box<FormatDescriptor>),
}

/// The model of a value.
pub open spec fn value_view(v: QTValue) -> QtNode
    decreases v,
{
    match v {
        QTValue::StringKey(s) => QtNode::StringKey(s@),
        QTValue::StringValue(s) => QtNode::StringValue(s@),
        QTValue::Boolean(b) => QtNode::Boolean(b),
        QTValue::KeyValuePair(p) => QtNode::KeyValuePair(
            Box::new(value_view(p.key)),
            Box::new(value_view(p.value)),
        ),
        QTValue::Object(a) => QtNode::Object(values_view(a@)),
        QTValue::Float(f) => QtNode::Float(f),
        QTValue::UInt32(n) => QtNode::UInt32(n),
        QTValue::UInt64(n) => QtNode::UInt64(n),
        QTValue::Data(d) => QtNode::Data(d@),
        QTValue::IdxKey(i) => QtNode::IdxKey(i),
        QTValue::FormatDescriptor(f) => QtNode::FormatDescriptor(Box::new(format_view(*f))),
    }
}

/// The models of a sequence of values.
pub open spec fn values_view(s: Seq<QTValue>) -> Seq<QtNode>
    decreases s,
{
    if s.len() == 0 {
        Seq::empty()
    } else {
        seq![value_view(s[0])] + values_view(s.subrange(1, s.len() as int))
    }
}

impl View for QTValue {
    type V = QtNode;

    open spec fn view(&self) -> QtNode {
        value_view(*self)
    }
}

/// The models of `s` with `x` appended.
pub proof fn lemma_values_view_push(s: Seq<QTValue>, x: QTValue)
    ensures
        values_view(s.push(x)) == values_view(s).push(value_view(x)),
    decreases s.len(),
{
    if s.len() == 0 {
        assert(s.push(x).subrange(1, 1) =~= Seq::<QTValue>::empty());
        assert(values_view(Seq::<QTValue>::empty()) =~= Seq::<QtNode>::empty());
        assert(values_view(s.push(x)) =~= values_view(s).push(value_view(x)));
    } else {
        let rest = s.subrange(1, s.len() as int);
        lemma_values_view_push(rest, x);
        assert(s.push(x).subrange(1, s.len() + 1 as int) =~= rest.push(x));
        assert(values_view(s.push(x)) =~= values_view(s).push(value_view(x)));
    }
}

/// There are as many models as values.
pub proof fn lemma_values_view_len(s: Seq<QTValue>)
    ensures
        values_view(s).len() == s.len(),
    decreases s.len(),
{
    if s.len() > 0 {
        lemma_values_view_len(s.subrange(1, s.len() as int));
    }
}

/// The models of a sequence, one by one.
pub proof fn lemma_values_view_index(s: Seq<QTValue>, i: int)
    requires
        0 <= i < s.len(),
    ensures
        values_view(s).len() == s.len(),
        values_view(s)[i] == value_view(s[i]),
    decreases s.len(),
{
    let rest = s.subrange(1, s.len() as int);
    if i > 0 {
        lemma_values_view_index(rest, i - 1);
    } else if s.len() > 1 {
        lemma_values_view_index(rest, 0);
    } else {
        assert(values_view(rest) =~= Seq::<QtNode>::empty());
    }
}

/// The magic of a value's node.
pub open spec fn magic_of(v: QtNode) -> u32 {
    match v {
        QtNode::StringKey(_) => MAGIC_KEY_STRING,
        QtNode::StringValue(_) => MAGIC_KEY_STRING_VALUE,
        QtNode::Boolean(_) => MAGIC_KEY_BOOLEAN,
        QtNode::KeyValuePair(_, _) => MAGIC_KEY_VALUE_PAIR,
        QtNode::Object(_) => MAGIC_KEY_DICTIONARY,
        QtNode::Data(_) => MAGIC_KEY_DATA_VALUE,
        QtNode::Float(_) => MAGIC_KEY_NUMBER_VALUE,
        QtNode::UInt32(_) => MAGIC_KEY_NUMBER_VALUE,
        QtNode::UInt64(_) => MAGIC_KEY_NUMBER_VALUE,
        QtNode::IdxKey(_) => MAGIC_KEY_IDX,
        QtNode::FormatDescriptor(_) => MAGIC_FORMAT_DESCRIPTOR,
    }
}

/// Frames `payload` as a node with `magic`; fails when its length does not
/// fit the header.
pub fn write_node(magic: u32, payload: &[u8]) -> (r: Result<Vec<u8>, QtError>)
    ensures
        payload@.len() + 8 <= u32::MAX ==> r is Ok && r->Ok_0@ == node(magic, payload@),
        payload@.len() + 8 > u32::MAX ==> r == Err::<Vec<u8>, QtError>(QtError::InvalidValue),
{
    if payload.len() > 0xffff_fff7usize {
        return Err(QtError::InvalidValue);
    }
    let mut out: Vec<u8> = Vec::new();
    push_u32_le(&mut out, (payload.len() + 8) as u32);
    push_u32_le(&mut out, magic);
    push_all(&mut out, payload);
    assert(out@ =~= node(magic, payload@));
    Ok(out)
}

/// The wire bytes of the values of `a`, one after the other.
pub fn encode_values(a: &Vec<QTValue>) -> (r: Result<Vec<u8>, QtError>)
    ensures
        r is Ok ==> r->Ok_0@ == encode_list(values_view(a@)) && list_encodable(values_view(a@)),
        r is Err ==> r == Err::<Vec<u8>, QtError>(QtError::InvalidValue) && !(list_encodable(
            values_view(a@),
        ) && encode_list(values_view(a@)).len() <= u32::MAX),
    decreases a,
{
    let mut payload: Vec<u8> = Vec::new();
    let mut i: usize = 0;
    let ghost t = values_view(a@);
    while i < a.len()
        invariant
            i <= a@.len(),
            t == values_view(a@),
            payload@ == encode_list(values_view(a@.subrange(0, i as int))),
            list_encodable(values_view(a@.subrange(0, i as int))),
        decreases a@.len() - i,
    {
        let c = match a[i].encode() {
            Ok(c) => c,
            Err(e) => {
                proof {
                    lemma_values_view_index(a@, i as int);
                    lemma_encode_list_member(t, i as int);
                }
                return Err(e);
            },
        };
        proof {
            lemma_values_view_push(a@.subrange(0, i as int), a@[i as int]);
            lemma_encode_list_push(values_view(a@.subrange(0, i as int)), a@[i as int]@);
            assert(a@.subrange(0, i as int).push(a@[i as int]) =~= a@.subrange(0, i + 1));
        }
        push_all(&mut payload, c.as_slice());
        i = i + 1;
    }
    assert(a@.subrange(0, a@.len() as int) =~= a@);
    Ok(payload)
}

impl QTKeyValuePair {
    pub fn new(key: QTValue, value: QTValue) -> (r: Box<QTKeyValuePair>)
        ensures
            r.key == key,
            r.value == value,
    {
        Box::new(QTKeyValuePair { key, value })
    }

    pub fn key(&self) -> (r: &QTValue)
        ensures
            *r == self.key,
    {
        &self.key
    }

    pub fn value(&self) -> (r: &QTValue)
        ensures
            *r == self.value,
    {
        &self.value
    }
}

impl QTValue {
    /// The magic of this value on the wire.
    pub fn get_magic(&self) -> (r: u32)
        ensures
            r == magic_of(self@),
    {
        match self {
            QTValue::StringKey(_) => MAGIC_KEY_STRING,
            QTValue::StringValue(_) => MAGIC_KEY_STRING_VALUE,
            QTValue::Boolean(_) => MAGIC_KEY_BOOLEAN,
            QTValue::KeyValuePair(_) => MAGIC_KEY_VALUE_PAIR,
            QTValue::Object(_) => MAGIC_KEY_DICTIONARY,
            QTValue::Data(_) => MAGIC_KEY_DATA_VALUE,
            QTValue::Float(_) => MAGIC_KEY_NUMBER_VALUE,
            QTValue::UInt32(_) => MAGIC_KEY_NUMBER_VALUE,
            QTValue::UInt64(_) => MAGIC_KEY_NUMBER_VALUE,
            QTValue::IdxKey(_) => MAGIC_KEY_IDX,
            QTValue::FormatDescriptor(_) => MAGIC_FORMAT_DESCRIPTOR,
        }
    }

    /// The wire bytes of this value. Fails when a format descriptor in it is
    /// neither sound with a stream description nor video, or when a length
    /// does not fit its header.
    pub fn encode(&self) -> (r: Result<Vec<u8>, QtError>)
        ensures
            (encodable(self@) && encode_value(self@).len() <= u32::MAX) ==> r is Ok
                && r->Ok_0@ == encode_value(self@),
            !(encodable(self@) && encode_value(self@).len() <= u32::MAX) ==> r == Err::<
                Vec<u8>,
                QtError,
            >(QtError::InvalidValue),
        decreases self,
    {
        match self {
            QTValue::StringKey(s) => write_node(MAGIC_KEY_STRING, s.as_str().as_bytes()),
            QTValue::StringValue(s) => write_node(MAGIC_KEY_STRING_VALUE, s.as_str().as_bytes()),
            QTValue::Boolean(b) => {
                let byte: u8 = if *b {
                    1
                } else {
                    0
                };
                let v: Vec<u8> = vec![byte];
                write_node(MAGIC_KEY_BOOLEAN, v.as_slice())
            },
            QTValue::KeyValuePair(p) => {
                let ek = p.key.encode();
                let ex = p.value.encode();
                let ghost total = encode_value(self@);
                match (ek, ex) {
                    (Ok(k), Ok(x)) => {
                        let mut payload = k;
                        push_all(&mut payload, x.as_slice());
                        write_node(MAGIC_KEY_VALUE_PAIR, payload.as_slice())
                    },
                    _ => Err(QtError::InvalidValue),
                }
            },
            QTValue::Object(a) => {
                let payload = match encode_values(a) {
                    Ok(p) => p,
                    Err(e) => {
                        return Err(e);
                    },
                };
                write_node(MAGIC_KEY_DICTIONARY, payload.as_slice())
            },
            QTValue::Float(f) => {
                let mut payload: Vec<u8> = vec![NUMBER_F64];
                push_u64_le(&mut payload, *f);
                write_node(MAGIC_KEY_NUMBER_VALUE, payload.as_slice())
            },
            QTValue::UInt32(n) => {
                let mut payload: Vec<u8> = vec![NUMBER_U32];
                push_u32_le(&mut payload, *n);
                write_node(MAGIC_KEY_NUMBER_VALUE, payload.as_slice())
            },
            QTValue::UInt64(n) => {
                let mut payload: Vec<u8> = vec![NUMBER_U64];
                push_u64_le(&mut payload, *n);
                write_node(MAGIC_KEY_NUMBER_VALUE, payload.as_slice())
            },
            QTValue::Data(d) => write_node(MAGIC_KEY_DATA_VALUE, d.as_slice()),
            QTValue::IdxKey(i) => {
                let mut payload: Vec<u8> = Vec::new();
                push_u16_le(&mut payload, *i);
                write_node(MAGIC_KEY_IDX, payload.as_slice())
            },
            QTValue::FormatDescriptor(f) => f.encode(),
        }
    }

    /// The text of a string key or string value.
    pub fn as_string(&self) -> (r: Option<String>)
        ensures
            match self {
                QTValue::StringKey(s) => r is Some && r->Some_0@ == s@,
                QTValue::StringValue(s) => r is Some && r->Some_0@ == s@,
                _ => r is None,
            },
    {
        match self {
            QTValue::StringKey(s) => Some(s.as_str().to_owned()),
            QTValue::StringValue(s) => Some(s.as_str().to_owned()),
            _ => None,
        }
    }

    pub fn as_bool(&self) -> (r: Option<bool>)
        ensures
            match self {
                QTValue::Boolean(b) => r == Some(*b),
                _ => r is None,
            },
    {
        match self {
            QTValue::Boolean(b) => Some(*b),
            _ => None,
        }
    }

    pub fn as_pair(&self) -> (r: Option<&QTKeyValuePair>)
        ensures
            match self {
                QTValue::KeyValuePair(p) => r is Some && *r->Some_0 == **p,
                _ => r is None,
            },
    {
        match self {
            QTValue::KeyValuePair(p) => Some(p),
            _ => None,
        }
    }

    pub fn as_vec(&self) -> (r: Option<&Vec<QTValue>>)
        ensures
            match self {
                QTValue::Object(a) => r is Some && *r->Some_0 == *a,
                _ => r is None,
            },
    {
        match self {
            QTValue::Object(a) => Some(a),
            _ => None,
        }
    }

    /// The bit pattern of a float.
    pub fn as_f64(&self) -> (r: Option<u64>)
        ensures
            match self {
                QTValue::Float(f) => r == Some(*f),
                _ => r is None,
            },
    {
        match self {
            QTValue::Float(f) => Some(*f),
            _ => None,
        }
    }

    pub fn as_u64(&self) -> (r: Option<u64>)
        ensures
            match self {
                QTValue::UInt64(n) => r == Some(*n),
                _ => r is None,
            },
    {
        match self {
            QTValue::UInt64(n) => Some(*n),
            _ => None,
        }
    }

    pub fn as_idx(&self) -> (r: Option<u16>)
        ensures
            match self {
                QTValue::IdxKey(i) => r == Some(*i),
                _ => r is None,
            },
    {
        match self {
            QTValue::IdxKey(i) => Some(*i),
            _ => None,
        }
    }

    pub fn as_u32(&self) -> (r: Option<u32>)
        ensures
            match self {
                QTValue::UInt32(n) => r == Some(*n),
                _ => r is None,
            },
    {
        match self {
            QTValue::UInt32(n) => Some(*n),
            _ => None,
        }
    }

    pub fn as_data(&self) -> (r: Option<&Vec<u8>>)
        ensures
            match self {
                QTValue::Data(d) => r is Some && *r->Some_0 == *d,
                _ => r is None,
            },
    {
        match self {
            QTValue::Data(d) => Some(d),
            _ => None,
        }
    }

    /// This value as a packet: the bytes of its node, cursor at the end, as
    /// the writers leave it. Fails as `encode` does.
    pub fn as_qt_packet(&self) -> (r: Result<QTPacket, QtError>)
        ensures
            (encodable(self@) && encode_value(self@).len() <= u32::MAX) ==> r is Ok && r->Ok_0@
                == (PacketView { bytes: encode_value(self@), pos: encode_value(self@).len() })
                && r->Ok_0@.wf()
                && r->Ok_0@.finalized() == encode_value(self@),
            !(encodable(self@) && encode_value(self@).len() <= u32::MAX) ==> r is Err,
    {
        match self.encode() {
            Ok(b) => {
                proof {
                    crate::wire::lemma_encode_len(self@);
                    lemma_encode_header(self@);
                    (PacketView { bytes: b@, pos: b@.len() }).lemma_finalized_same();
                }
                let n = b.len();
                Ok(QTPacket::from_vec_at(b, n))
            },
            Err(e) => Err(e),
        }
    }

    /// Reads the value under the cursor.
    pub fn from_qt_packet(pkt: &mut QTPacket) -> (r: Result<QTValue, QtError>)
        requires
            old(pkt)@.wf(),
        ensures
            final(pkt)@.wf(),
            match parse_value(old(pkt)@.rest()) {
                Ok((v, n)) => r is Ok && r->Ok_0@ == v && final(pkt)@ == old(pkt)@.advanced(n),
                Err(e) => r == Err::<QTValue, QtError>(e),
            },
        decreases old(pkt)@.rest().len(), 1nat,
    {
        let ghost b = pkt@.rest();
        let ghost start = pkt@;
        if pkt.len() - pkt.pos() < 8 {
            return Err(QtError::UnexpectedEof);
        }
        let len = match pkt.read_u32() {
            Ok(v) => v,
            Err(e) => return Err(e),
        };
        assert(pkt@.rest() =~= b.subrange(4, b.len() as int));
        let magic = match pkt.read_u32() {
            Ok(v) => v,
            Err(e) => return Err(e),
        };
        proof {
            assert(b.subrange(4, b.len() as int).subrange(0, 4) =~= b.subrange(4, 8));
            assert(pkt@.rest() =~= b.subrange(8, b.len() as int));
        }
        if len < 8 {
            return Err(QtError::InvalidValue);
        }
        let blen = (len - 8) as usize;
        if pkt.len() - pkt.pos() < blen as u64 {
            return Err(QtError::UnexpectedEof);
        }
        if magic == MAGIC_KEY_VALUE_PAIR {
            let mut body = match QTPacket::read_qt_packet(pkt, blen) {
                Ok(p) => p,
                Err(e) => return Err(e),
            };
            let ghost inner = b.subrange(8, len as int);
            let ghost body0 = body@;
            assert(body@.rest() =~= inner);
            let key = match QTValue::from_qt_packet(&mut body) {
                Ok(v) => v,
                Err(e) => return Err(e),
            };
            proof {
                lemma_parse_value_len(inner);
                let kn = body@.pos - body0.pos;
                assert(body@.rest() =~= inner.subrange(kn, inner.len() as int));
            }
            let value = match QTValue::from_qt_packet(&mut body) {
                Ok(v) => v,
                Err(e) => return Err(e),
            };
            if body.remaining() != 0 {
                return Err(QtError::InvalidValue);
            }
            return Ok(QTValue::KeyValuePair(QTKeyValuePair::new(key, value)));
        }
        if magic == MAGIC_KEY_DICTIONARY {
            let mut body = match QTPacket::read_qt_packet(pkt, blen) {
                Ok(p) => p,
                Err(e) => return Err(e),
            };
            assert(body@.rest() =~= b.subrange(8, len as int));
            let arr = match read_values(&mut body) {
                Ok(a) => a,
                Err(e) => return Err(e),
            };
            return Ok(QTValue::Object(arr));
        }
        if magic == MAGIC_FORMAT_DESCRIPTOR {
            let mut body = match QTPacket::read_qt_packet(pkt, blen) {
                Ok(p) => p,
                Err(e) => return Err(e),
            };
            assert(body@.rest() =~= b.subrange(8, len as int));
            let fd = match FormatDescriptor::from_qt_packet(&mut body) {
                Ok(f) => f,
                Err(e) => return Err(e),
            };
            return Ok(QTValue::FormatDescriptor(Box::new(fd)));
        }
        let data = match pkt.read_vec(blen) {
            Ok(d) => d,
            Err(e) => return Err(e),
        };
        assert(data@ =~= b.subrange(8, len as int));
        leaf_from(magic, data)
    }
}

/// Relies on `String::from_utf8`: it succeeds exactly on valid UTF-8, and
/// the string holds the characters that the bytes encode.
#[verifier::external_body]
fn string_from_utf8(v: Vec<u8>) -> (r: Option<String>)
    ensures
        r is Some <==> valid_utf8(v@),
        r is Some ==> r->Some_0@ == decode_utf8(v@),
{
    String::from_utf8(v).ok()
}

/// The leaf value with `magic` whose body is `data`.
fn leaf_from(magic: u32, data: Vec<u8>) -> (r: Result<QTValue, QtError>)
    ensures
        match parse_leaf(magic, data@) {
            Ok(v) => r is Ok && r->Ok_0@ == v,
            Err(e) => r == Err::<QTValue, QtError>(e),
        },
{
    proof {
        reveal(parse_leaf);
    }
    if magic == MAGIC_KEY_STRING {
        match string_from_utf8(data) {
            Some(s) => Ok(QTValue::StringKey(s)),
            None => Err(QtError::InvalidValue),
        }
    } else if magic == MAGIC_KEY_STRING_VALUE {
        match string_from_utf8(data) {
            Some(s) => Ok(QTValue::StringValue(s)),
            None => Err(QtError::InvalidValue),
        }
    } else if magic == MAGIC_KEY_BOOLEAN {
        if data.len() >= 1 && data[0] == 0 {
            Ok(QTValue::Boolean(false))
        } else if data.len() >= 1 && data[0] == 1 {
            Ok(QTValue::Boolean(true))
        } else {
            Err(QtError::InvalidValue)
        }
    } else if magic == MAGIC_KEY_DATA_VALUE {
        Ok(QTValue::Data(data))
    } else if magic == MAGIC_KEY_NUMBER_VALUE {
        if data.len() >= 9 && data[0] == NUMBER_F64 {
            Ok(QTValue::Float(read_u64_le(data.as_slice(), 1)))
        } else if data.len() >= 9 && data[0] == NUMBER_U64 {
            Ok(QTValue::UInt64(read_u64_le(data.as_slice(), 1)))
        } else if data.len() >= 5 && (data[0] == NUMBER_U32 || data[0] == NUMBER_U32_ALIAS) {
            Ok(QTValue::UInt32(read_u32_le(data.as_slice(), 1)))
        } else {
            Err(QtError::InvalidValue)
        }
    } else if magic == MAGIC_KEY_IDX {
        if data.len() >= 2 {
            Ok(QTValue::IdxKey(read_u16_le(data.as_slice(), 0)))
        } else {
            Err(QtError::InvalidValue)
        }
    } else {
        Err(QtError::InvalidValue)
    }
}

/// Reads values until the cursor reaches the end of the packet.
pub fn read_values(pkt: &mut QTPacket) -> (r: Result<Vec<QTValue>, QtError>)
    requires
        old(pkt)@.wf(),
    ensures
        final(pkt)@.wf(),
        match parse_list(old(pkt)@.rest()) {
            Ok(s) => r is Ok && values_view(r->Ok_0@) == s,
            Err(e) => r == Err::<Vec<QTValue>, QtError>(e),
        },
    decreases old(pkt)@.rest().len(), 2nat,
{
    let ghost orig = pkt@.rest();
    let mut arr: Vec<QTValue> = Vec::new();
    assert(values_view(arr@) =~= Seq::<QtNode>::empty());
    assert(Seq::<QtNode>::empty() + parse_list(orig)->Ok_0 =~= parse_list(orig)->Ok_0);
    while pkt.pos() < pkt.len()
        invariant
            pkt@.wf(),
            orig == old(pkt)@.rest(),
            pkt@.rest().len() <= orig.len(),
            parse_list(orig) == list_after(values_view(arr@), parse_list(pkt@.rest())),
        decreases pkt@.rest().len(),
    {
        let ghost cur = pkt@.rest();
        let ghost before = pkt@;
        assert(pkt@.rest().len() <= old(pkt)@.rest().len());
        let v = match QTValue::from_qt_packet(pkt) {
            Ok(v) => v,
            Err(e) => return Err(e),
        };
        proof {
            lemma_parse_value_len(cur);
            let n = pkt@.pos - before.pos;
            assert(pkt@.rest() =~= cur.subrange(n, cur.len() as int));
            lemma_values_view_push(arr@, v);
            match parse_list(pkt@.rest()) {
                Ok(t) => {
                    assert(values_view(arr@).push(v@) + t =~= values_view(arr@) + (seq![v@] + t));
                },
                Err(_) => {},
            }
        }
        arr.push(v);
    }
    proof {
        assert(pkt@.rest() =~= Seq::<u8>::empty());
        assert(values_view(arr@) + Seq::<QtNode>::empty() =~= values_view(arr@));
    }
    Ok(arr)
}

/// Writing a value and parsing the bytes gives the value back, up to the
/// aliasing of number subtypes 3 and 5 (the writer uses 3). It holds of every
/// value whose format descriptors are as parsing makes them and whose
/// encoding fits its length header.
pub proof fn lemma_qt_value_round_trip(v: QTValue)
    requires
        crate::wire::value_wf(v@),
        encode_value(v@).len() <= u32::MAX,
    ensures
        parse_value(encode_value(v@)) == Ok::<(QtNode, nat), QtError>((v@, encode_value(v@).len())),
{
    crate::wire::lemma_value_round_trip(v@, Seq::empty());
    assert(encode_value(v@) + Seq::<u8>::empty() =~= encode_value(v@));
}

} // verus!
