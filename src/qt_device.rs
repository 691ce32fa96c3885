//! The device information that the host advertises, and other fixed values.
use crate::coremedia::audio_desc::AudioStreamDescription;
use crate::qt_pkt::node;
use crate::qt_value::{
    lemma_values_view_index, lemma_values_view_len, value_view, values_view, QTKeyValuePair,
    QTValue,
};
use crate::wire::{lemma_value_round_trip, list_wf, parse_value, value_wf, list_encodable, MAGIC_KEY_DICTIONARY, MAGIC_KEY_STRING, MAGIC_KEY_VALUE_PAIR, MAGIC_KEY_NUMBER_VALUE, NUMBER_U32};
use crate::bytes::u32_le;
use crate::wire::{asbd_bytes, encodable, encode_list, encode_value, QtNode};
use vstd::prelude::*;
use vstd::utf8::encode_utf8;

verus! {

/// Bit patterns of the doubles in the device information.
pub const DISPLAY_WIDTH: u64 = 0x409e000000000000;
pub const DISPLAY_HEIGHT: u64 = 0x4092c00000000000;
pub const BUFFER_AHEAD_INTERVAL: u64 = 0x3fb2b020c49ba5e3;
pub const SCREEN_LATENCY: u64 = 0x3fa47ae147ae147b;

/// A string-keyed entry.
pub open spec fn entry(key: Seq<char>, value: QtNode) -> QtNode {
    QtNode::KeyValuePair(Box::new(QtNode::StringKey(key)), Box::new(value))
}

/// The display information sent in 'hpd1'.
pub open spec fn hpd1_model() -> QtNode {
    QtNode::Object(
        seq![
            entry("Valeria"@, QtNode::Boolean(true)),
            entry("HEVCDecoderSupports444"@, QtNode::Boolean(true)),
            entry(
                "DisplaySize"@,
                QtNode::Object(
                    seq![
                        entry("Width"@, QtNode::Float(DISPLAY_WIDTH)),
                        entry("Height"@, QtNode::Float(DISPLAY_HEIGHT)),
                    ],
                ),
            ),
        ],
    )
}

/// The audio information sent in 'hpa1'.
pub open spec fn hpa1_model() -> QtNode {
    QtNode::Object(
        seq![
            entry("BufferAheadInterval"@, QtNode::Float(BUFFER_AHEAD_INTERVAL)),
            entry("deviceUID"@, QtNode::StringValue("Valeria"@)),
            entry("ScreenLatency"@, QtNode::Float(SCREEN_LATENCY)),
            entry("formats"@, QtNode::Data(asbd_bytes(crate::coremedia::audio_desc::default_asbd()@))),
            entry("EDIDAC3Support"@, QtNode::UInt32(0)),
            entry("deviceName"@, QtNode::StringValue("Valeria"@)),
        ],
    )
}

/// The reply to 'afmt'.
pub open spec fn afmt_reply_model() -> QtNode {
    QtNode::Object(seq![entry("Error"@, QtNode::UInt32(0))])
}

fn string_entry(key: &str, value: QTValue) -> (r: QTValue)
    ensures
        r@ == entry(key@, value@),
{
    proof {
        reveal_with_fuel(value_view, 2);
    }
    QTValue::KeyValuePair(QTKeyValuePair::new(QTValue::StringKey(key.to_owned()), value))
}

/// The display information sent in 'hpd1'.
pub fn qt_hpd1_device_info() -> (r: QTValue)
    ensures
        r@ == hpd1_model(),
{
    let mut display_arr: Vec<QTValue> = Vec::new();
    display_arr.push(string_entry("Width", QTValue::Float(DISPLAY_WIDTH)));
    display_arr.push(string_entry("Height", QTValue::Float(DISPLAY_HEIGHT)));
    let ghost dv = display_arr@;
    let mut arr: Vec<QTValue> = Vec::new();
    arr.push(string_entry("Valeria", QTValue::Boolean(true)));
    arr.push(string_entry("HEVCDecoderSupports444", QTValue::Boolean(true)));
    arr.push(string_entry("DisplaySize", QTValue::Object(display_arr)));
    let ghost av = arr@;
    let r = QTValue::Object(arr);
    proof {
        lemma_values_view_len(dv);
        lemma_values_view_index(dv, 0);
        lemma_values_view_index(dv, 1);
        lemma_values_view_len(av);
        lemma_values_view_index(av, 0);
        lemma_values_view_index(av, 1);
        lemma_values_view_index(av, 2);
        assert(values_view(dv) =~= seq![
            entry("Width"@, QtNode::Float(DISPLAY_WIDTH)),
            entry("Height"@, QtNode::Float(DISPLAY_HEIGHT)),
        ]);
        assert(values_view(av) =~= hpd1_model()->Object_0);
    }
    r
}

/// The audio information sent in 'hpa1'.
pub fn qt_hpa1_device_info() -> (r: QTValue)
    ensures
        r@ == hpa1_model(),
{
    let buffer = AudioStreamDescription::default().as_buffer();
    let mut arr: Vec<QTValue> = Vec::new();
    arr.push(string_entry("BufferAheadInterval", QTValue::Float(BUFFER_AHEAD_INTERVAL)));
    arr.push(string_entry("deviceUID", QTValue::StringValue("Valeria".to_owned())));
    arr.push(string_entry("ScreenLatency", QTValue::Float(SCREEN_LATENCY)));
    arr.push(string_entry("formats", QTValue::Data(buffer)));
    arr.push(string_entry("EDIDAC3Support", QTValue::UInt32(0)));
    arr.push(string_entry("deviceName", QTValue::StringValue("Valeria".to_owned())));
    let ghost av = arr@;
    let r = QTValue::Object(arr);
    proof {
        lemma_values_view_len(av);
        lemma_values_view_index(av, 0);
        lemma_values_view_index(av, 1);
        lemma_values_view_index(av, 2);
        lemma_values_view_index(av, 3);
        lemma_values_view_index(av, 4);
        lemma_values_view_index(av, 5);
        assert(values_view(av) =~= hpa1_model()->Object_0);
    }
    r
}

/// The reply to 'afmt'.
pub fn afmt_reply_value() -> (r: QTValue)
    ensures
        r@ == afmt_reply_model(),
{
    let mut arr: Vec<QTValue> = Vec::new();
    arr.push(string_entry("Error", QTValue::UInt32(0)));
    let ghost av = arr@;
    let r = QTValue::Object(arr);
    proof {
        lemma_values_view_len(av);
        lemma_values_view_index(av, 0);
        assert(values_view(av) =~= afmt_reply_model()->Object_0);
    }
    r
}

/// A UTF-8 encoding takes at most four bytes a character.
pub proof fn lemma_utf8_len(chars: Seq<char>)
    ensures
        encode_utf8(chars).len() <= 4 * chars.len(),
    decreases chars.len(),
{
    if chars.len() > 0 {
        lemma_utf8_len(chars.drop_first());
    }
}

/// The reply to 'afmt' can be written, in at most 1000 bytes.
pub proof fn lemma_afmt_reply_writable()
    ensures
        encodable(afmt_reply_model()),
        encode_value(afmt_reply_model()).len() <= 1000,
{
    reveal_strlit("Error");
    lemma_utf8_len("Error"@);
    let e = entry("Error"@, QtNode::UInt32(0));
    let s = seq![e];
    assert(afmt_reply_model() == QtNode::Object(s));
    assert(s.subrange(1, 1) =~= Seq::<QtNode>::empty());
    assert(list_encodable(Seq::<QtNode>::empty()));
    assert(encodable(QtNode::StringKey("Error"@)));
    assert(encodable(QtNode::UInt32(0)));
    assert(encodable(e));
    assert(list_encodable(s));
    assert(encode_list(Seq::<QtNode>::empty()) =~= Seq::<u8>::empty());
    let k = encode_value(QtNode::StringKey("Error"@));
    assert(k == node(MAGIC_KEY_STRING, encode_utf8("Error"@)));
    let x = encode_value(QtNode::UInt32(0));
    assert(x == node(MAGIC_KEY_NUMBER_VALUE, seq![NUMBER_U32] + u32_le(0)));
    assert(encode_value(e) == node(MAGIC_KEY_VALUE_PAIR, k + x));
    assert(encode_list(s) == encode_value(e) + encode_list(Seq::<QtNode>::empty()));
    assert(encode_value(afmt_reply_model()) == node(MAGIC_KEY_DICTIONARY, encode_list(s)));
}

/// How long a string-keyed entry is, and when it can be written.
proof fn lemma_entry(k: Seq<char>, v: QtNode)
    ensures
        encode_value(entry(k, v)).len() == 16 + encode_utf8(k).len() + encode_value(v).len(),
        encodable(entry(k, v)) == encodable(v),
        encode_utf8(k).len() <= 4 * k.len(),
{
    lemma_utf8_len(k);
    assert(encodable(QtNode::StringKey(k)));
    assert(encode_value(QtNode::StringKey(k)) == node(MAGIC_KEY_STRING, encode_utf8(k)));
}

/// A list of writable nodes, each at most `bound` bytes long.
proof fn lemma_list_bound(s: Seq<QtNode>, bound: nat)
    requires
        forall|i: int| 0 <= i < s.len() ==> encodable(#[trigger] s[i]) && encode_value(s[i]).len()
            <= bound,
    ensures
        list_encodable(s),
        encode_list(s).len() <= s.len() * bound,
    decreases s.len(),
{
    if s.len() == 0 {
        assert(encode_list(s) =~= Seq::<u8>::empty());
    } else {
        let rest = s.subrange(1, s.len() as int);
        assert forall|i: int| 0 <= i < rest.len() implies encodable(#[trigger] rest[i])
            && encode_value(rest[i]).len() <= bound by {
            assert(rest[i] == s[i + 1]);
        }
        lemma_list_bound(rest, bound);
        assert(encode_value(s[0]).len() <= bound);
        assert(encode_list(s).len() == encode_value(s[0]).len() + encode_list(rest).len());
        assert(encode_list(s).len() <= s.len() * bound) by (nonlinear_arith)
            requires
                encode_list(s).len() == encode_value(s[0]).len() + encode_list(rest).len(),
                encode_value(s[0]).len() <= bound,
                encode_list(rest).len() <= rest.len() * bound,
                rest.len() + 1 == s.len(),
        ;
    }
}

/// The display information can be written, in at most 1000 bytes.
pub proof fn lemma_hpd1_writable()
    ensures
        encodable(hpd1_model()),
        encode_value(hpd1_model()).len() <= 1000,
{
    reveal_strlit("Valeria");
    reveal_strlit("HEVCDecoderSupports444");
    reveal_strlit("DisplaySize");
    reveal_strlit("Width");
    reveal_strlit("Height");
    let w = entry("Width"@, QtNode::Float(DISPLAY_WIDTH));
    let h = entry("Height"@, QtNode::Float(DISPLAY_HEIGHT));
    lemma_entry("Width"@, QtNode::Float(DISPLAY_WIDTH));
    lemma_entry("Height"@, QtNode::Float(DISPLAY_HEIGHT));
    let inner = seq![w, h];
    lemma_list_bound(inner, 60);
    let d = QtNode::Object(inner);
    assert(encodable(d));
    assert(encode_value(d).len() == 8 + encode_list(inner).len());
    let a = entry("Valeria"@, QtNode::Boolean(true));
    let b = entry("HEVCDecoderSupports444"@, QtNode::Boolean(true));
    let c = entry("DisplaySize"@, d);
    lemma_entry("Valeria"@, QtNode::Boolean(true));
    lemma_entry("HEVCDecoderSupports444"@, QtNode::Boolean(true));
    lemma_entry("DisplaySize"@, d);
    let outer = seq![a, b, c];
    lemma_list_bound(outer, 300);
    assert(hpd1_model() == QtNode::Object(outer));
    assert(encode_value(hpd1_model()).len() == 8 + encode_list(outer).len());
}

/// The audio information can be written, in at most 1000 bytes.
pub proof fn lemma_hpa1_writable()
    ensures
        encodable(hpa1_model()),
        encode_value(hpa1_model()).len() <= 1000,
{
    reveal_strlit("BufferAheadInterval");
    reveal_strlit("deviceUID");
    reveal_strlit("Valeria");
    reveal_strlit("ScreenLatency");
    reveal_strlit("formats");
    reveal_strlit("EDIDAC3Support");
    reveal_strlit("deviceName");
    lemma_utf8_len("Valeria"@);
    let fmt = QtNode::Data(asbd_bytes(crate::coremedia::audio_desc::default_asbd()@));
    let sv = QtNode::StringValue("Valeria"@);
    assert(encode_value(sv).len() == 8 + encode_utf8("Valeria"@).len());
    let e0 = entry("BufferAheadInterval"@, QtNode::Float(BUFFER_AHEAD_INTERVAL));
    let e1 = entry("deviceUID"@, sv);
    let e2 = entry("ScreenLatency"@, QtNode::Float(SCREEN_LATENCY));
    let e3 = entry("formats"@, fmt);
    let e4 = entry("EDIDAC3Support"@, QtNode::UInt32(0));
    let e5 = entry("deviceName"@, sv);
    lemma_entry("BufferAheadInterval"@, QtNode::Float(BUFFER_AHEAD_INTERVAL));
    lemma_entry("deviceUID"@, sv);
    lemma_entry("ScreenLatency"@, QtNode::Float(SCREEN_LATENCY));
    lemma_entry("formats"@, fmt);
    lemma_entry("EDIDAC3Support"@, QtNode::UInt32(0));
    lemma_entry("deviceName"@, sv);
    let s = seq![e0, e1, e2, e3, e4, e5];
    lemma_list_bound(s, 160);
    assert(hpa1_model() == QtNode::Object(s));
    assert(encode_value(hpa1_model()).len() == 8 + encode_list(s).len());
}

/// A list whose every node is one that parsing gives back.
proof fn lemma_list_wf(s: Seq<QtNode>)
    requires
        forall|i: int| 0 <= i < s.len() ==> value_wf(#[trigger] s[i]),
    ensures
        list_wf(s),
    decreases s.len(),
{
    if s.len() > 0 {
        let rest = s.subrange(1, s.len() as int);
        assert forall|i: int| 0 <= i < rest.len() implies value_wf(#[trigger] rest[i]) by {
            assert(rest[i] == s[i + 1]);
        }
        lemma_list_wf(rest);
    }
}

/// A string-keyed entry parses back when its value does.
proof fn lemma_entry_wf(k: Seq<char>, v: QtNode)
    ensures
        value_wf(entry(k, v)) == value_wf(v),
{
    assert(value_wf(QtNode::StringKey(k)));
}

/// The display information parses back to itself.
pub proof fn lemma_hpd1_parses_back()
    ensures
        parse_value(encode_value(hpd1_model())) == Ok::<(QtNode, nat), crate::error::QtError>(
            (hpd1_model(), encode_value(hpd1_model()).len()),
        ),
{
    let inner = seq![
        entry("Width"@, QtNode::Float(DISPLAY_WIDTH)),
        entry("Height"@, QtNode::Float(DISPLAY_HEIGHT)),
    ];
    lemma_entry_wf("Width"@, QtNode::Float(DISPLAY_WIDTH));
    lemma_entry_wf("Height"@, QtNode::Float(DISPLAY_HEIGHT));
    lemma_list_wf(inner);
    let d = QtNode::Object(inner);
    assert(value_wf(d));
    lemma_entry_wf("Valeria"@, QtNode::Boolean(true));
    lemma_entry_wf("HEVCDecoderSupports444"@, QtNode::Boolean(true));
    lemma_entry_wf("DisplaySize"@, d);
    let outer = hpd1_model()->Object_0;
    lemma_list_wf(outer);
    lemma_hpd1_writable();
    lemma_value_round_trip(hpd1_model(), Seq::empty());
    assert(encode_value(hpd1_model()) + Seq::<u8>::empty() =~= encode_value(hpd1_model()));
}

/// The audio information parses back to itself.
pub proof fn lemma_hpa1_parses_back()
    ensures
        parse_value(encode_value(hpa1_model())) == Ok::<(QtNode, nat), crate::error::QtError>(
            (hpa1_model(), encode_value(hpa1_model()).len()),
        ),
{
    let fmt = QtNode::Data(asbd_bytes(crate::coremedia::audio_desc::default_asbd()@));
    let sv = QtNode::StringValue("Valeria"@);
    lemma_entry_wf("BufferAheadInterval"@, QtNode::Float(BUFFER_AHEAD_INTERVAL));
    lemma_entry_wf("deviceUID"@, sv);
    lemma_entry_wf("ScreenLatency"@, QtNode::Float(SCREEN_LATENCY));
    lemma_entry_wf("formats"@, fmt);
    lemma_entry_wf("EDIDAC3Support"@, QtNode::UInt32(0));
    lemma_entry_wf("deviceName"@, sv);
    lemma_list_wf(hpa1_model()->Object_0);
    lemma_hpa1_writable();
    lemma_value_round_trip(hpa1_model(), Seq::empty());
    assert(encode_value(hpa1_model()) + Seq::<u8>::empty() =~= encode_value(hpa1_model()));
}

} // verus!
