use qtstream::annexb::annex_b;
use qtstream::coremedia::audio_desc::AudioStreamDescription;
use qtstream::coremedia::format_desc::{FormatDescriptor, AVC1};
use qtstream::coremedia::sample::SampleBuffer;
use qtstream::coremedia::time::Time;
use qtstream::error::QtError;
use qtstream::qt_pkt::{QTPacket, QTPacketPing};
use qtstream::qt_value::{QTKeyValuePair, QTValue};
use qtstream::reassembler::Reassembler;
use qtstream::wire::{CODEC_AVC1, MEDIA_TYPE_SOUND, MEDIA_TYPE_VIDEO};

fn le32(n: u32) -> Vec<u8> {
    n.to_le_bytes().to_vec()
}

fn node(magic: u32, payload: &[u8]) -> Vec<u8> {
    let mut v = le32((payload.len() + 8) as u32);
    v.extend(le32(magic));
    v.extend_from_slice(payload);
    v
}

/// A packet whose cursor stands at the start of `bytes`.
fn packet_over(bytes: &[u8]) -> QTPacket {
    let mut p = QTPacket::new();
    p.write(bytes);
    p.set_pos(4);
    p
}

fn kv(k: QTValue, v: QTValue) -> QTValue {
    QTValue::KeyValuePair(QTKeyValuePair::new(k, v))
}

fn avcc_bytes() -> Vec<u8> {
    let mut a = vec![1u8, 0x64, 0x00, 0x1F, 0xFF, 0xE1, 0x00, 0x07];
    a.extend([0x67, 0x64, 0x00, 0x1F, 0xAC, 0xD9, 0x40]);
    a.extend([0x01, 0x00, 0x04]);
    a.extend([0x68, 0xEF, 0xBC, 0xB0]);
    a
}

fn video_descriptor() -> FormatDescriptor {
    let avc = kv(
        QTValue::IdxKey(49),
        QTValue::Object(vec![kv(QTValue::IdxKey(105), QTValue::Data(avcc_bytes()))]),
    );
    let extensions = vec![kv(QTValue::StringKey("CVPixelAspectRatio".to_string()), QTValue::UInt32(1)), avc];
    FormatDescriptor {
        media_type: MEDIA_TYPE_VIDEO,
        video_dimension_width: 1920,
        video_dimension_height: 1080,
        codec: CODEC_AVC1,
        extensions: Some(extensions),
        avc1: Some(AVC1::from_vec(&avcc_bytes()).unwrap()),
        audio_stream_basic_description: None,
    }
}

/// Parses the descriptor held by a 'fdsc' node.
fn parse_fdsc(bytes: &[u8]) -> Result<FormatDescriptor, QtError> {
    let mut p = packet_over(bytes);
    let (mut inner, _) = QTPacket::from_qt_packet_with_magic(&mut p, 0x66647363)?;
    FormatDescriptor::from_qt_packet(&mut inner)
}

#[test]
fn value_round_trip() {
    let v = QTValue::Object(vec![
        kv(QTValue::StringKey("Valeria".to_string()), QTValue::Boolean(true)),
        kv(QTValue::StringKey("name".to_string()), QTValue::StringValue("héllo".to_string())),
        kv(QTValue::IdxKey(7), QTValue::UInt64(0x1122_3344_5566_7788)),
        kv(QTValue::StringKey("n".to_string()), QTValue::UInt32(0xDEAD_BEEF)),
        kv(QTValue::StringKey("f".to_string()), QTValue::Float(1.5f64.to_bits())),
        kv(QTValue::StringKey("d".to_string()), QTValue::Data(vec![1, 2, 3])),
        QTValue::Object(vec![]),
        QTValue::FormatDescriptor(Box::new(video_descriptor())),
    ]);
    let bytes = v.encode().unwrap();
    assert_eq!(bytes[..4].to_vec(), le32(bytes.len() as u32));
    let mut p = packet_over(&bytes);
    let back = QTValue::from_qt_packet(&mut p).unwrap();
    assert_eq!(back, v);
    assert_eq!(p.pos(), p.len());
}

#[test]
fn number_subtype_five_reads_as_u32() {
    let mut payload = vec![5u8];
    payload.extend(le32(77));
    let bytes = node(0x6E6D6276, &payload);
    let v = QTValue::from_qt_packet(&mut packet_over(&bytes)).unwrap();
    assert_eq!(v, QTValue::UInt32(77));
    let mut again = QTValue::UInt32(77).encode().unwrap();
    assert_eq!(again[8], 3);
    again[8] = 5;
    assert_eq!(again, bytes);
}

#[test]
fn string_value_stays_a_value() {
    let bytes = node(0x73747276, "abc".as_bytes());
    let v = QTValue::from_qt_packet(&mut packet_over(&bytes)).unwrap();
    assert_eq!(v, QTValue::StringValue("abc".to_string()));
    assert_eq!(v.as_string(), Some("abc".to_string()));
}

#[test]
fn malformed_values_are_refused() {
    let bad_utf8 = node(0x7374726B, &[0xFF, 0xFE]);
    assert_eq!(QTValue::from_qt_packet(&mut packet_over(&bad_utf8)), Err(QtError::InvalidValue));
    let bad_bool = node(0x62756C76, &[2]);
    assert_eq!(QTValue::from_qt_packet(&mut packet_over(&bad_bool)), Err(QtError::InvalidValue));
    let bad_number = node(0x6E6D6276, &[9, 0, 0, 0, 0]);
    assert_eq!(QTValue::from_qt_packet(&mut packet_over(&bad_number)), Err(QtError::InvalidValue));
    let unknown = node(0x41424344, &[]);
    assert_eq!(QTValue::from_qt_packet(&mut packet_over(&unknown)), Err(QtError::InvalidValue));
    let mut truncated = node(0x64617476, &[1, 2, 3, 4]);
    truncated.truncate(10);
    assert_eq!(QTValue::from_qt_packet(&mut packet_over(&truncated)), Err(QtError::UnexpectedEof));
}

#[test]
fn dictionary_ends_at_its_length() {
    let inner = [QTValue::Boolean(false).encode().unwrap(), QTValue::IdxKey(3).encode().unwrap()].concat();
    let mut bytes = node(0x64696374, &inner);
    bytes.extend(QTValue::UInt32(9).encode().unwrap());
    let mut p = packet_over(&bytes);
    let dict = QTValue::from_qt_packet(&mut p).unwrap();
    assert_eq!(dict, QTValue::Object(vec![QTValue::Boolean(false), QTValue::IdxKey(3)]));
    assert_eq!(QTValue::from_qt_packet(&mut p).unwrap(), QTValue::UInt32(9));
}

#[test]
fn time_round_trip() {
    let t = Time::new(123_456_789, 1_000_000_000, 1, 42);
    let bytes = t.as_bytes();
    assert_eq!(bytes.len(), 24);
    assert_eq!(bytes[..8].to_vec(), 123_456_789u64.to_le_bytes().to_vec());
    let back = Time::from_qt_packet(&mut packet_over(&bytes)).unwrap();
    assert_eq!(back, t);
    assert_eq!(back.seconds(), 0);
    assert_eq!(Time::new(5_000, 1_000, 0, 0).seconds(), 5);
    assert_eq!(Time::from_qt_packet(&mut packet_over(&bytes[..20])), Err(QtError::UnexpectedEof));
}

#[test]
fn audio_description_round_trip() {
    let a = AudioStreamDescription::new(44100f64.to_bits(), 0x6C70636D, 12, 4, 1, 4, 2, 16);
    let bytes = a.as_buffer();
    assert_eq!(bytes.len(), 56);
    assert_eq!(bytes[48..56].to_vec(), 44100f64.to_bits().to_le_bytes().to_vec());
    let back = AudioStreamDescription::from_qt_packet(&mut packet_over(&bytes)).unwrap();
    assert_eq!(back, a);
    let d = AudioStreamDescription::default();
    assert_eq!(f64::from_bits(d.sample_rate), 48000.0);
    assert_eq!(d.channels_per_frame, 2);
    assert_eq!(d.bits_per_channel, 16);
}

#[test]
fn avcc_extraction() {
    let a = AVC1::from_vec(&avcc_bytes()).unwrap();
    assert_eq!(a.sps().len(), 7);
    assert_eq!(a.pps().len(), 4);
    assert_eq!(a.sps().to_vec(), vec![0x67, 0x64, 0x00, 0x1F, 0xAC, 0xD9, 0x40]);
    assert_eq!(a.nalu_len, 4);
    let fd = parse_fdsc(&video_descriptor().encode().unwrap()).unwrap();
    assert_eq!(fd.avc1().sps().len(), 7);
    assert_eq!(fd.avc1().pps().len(), 4);
    assert_eq!(AVC1::from_vec(&vec![1, 2, 3]), Err(QtError::UnexpectedEof));
}

#[test]
fn descriptor_without_avcc_path_has_no_record() {
    let mut fd = video_descriptor();
    fd.extensions = Some(vec![kv(QTValue::IdxKey(49), QTValue::Object(vec![]))]);
    fd.avc1 = None;
    let back = parse_fdsc(&fd.encode().unwrap()).unwrap();
    assert!(back.avc1.is_none());
    assert_eq!(back, fd);
}

#[test]
fn descriptor_reencodes_to_same_fields() {
    let fd = parse_fdsc(&video_descriptor().encode().unwrap()).unwrap();
    let again = parse_fdsc(&fd.encode().unwrap()).unwrap();
    assert_eq!(again, fd);
    assert_eq!(fd.video_dimension_width(), 1920);
    assert_eq!(fd.video_dimension_height(), 1080);
    let sound = FormatDescriptor {
        media_type: MEDIA_TYPE_SOUND,
        video_dimension_width: 0,
        video_dimension_height: 0,
        codec: 0,
        extensions: None,
        avc1: None,
        audio_stream_basic_description: Some(AudioStreamDescription::default()),
    };
    let back = parse_fdsc(&sound.encode().unwrap()).unwrap();
    assert_eq!(back, sound);
    assert_eq!(*back.audio_stream_description(), AudioStreamDescription::default());
}

#[test]
fn descriptor_errors() {
    let mut bad = video_descriptor();
    bad.media_type = 0x41424344;
    assert_eq!(bad.encode(), Err(QtError::InvalidValue));
    let mut wrong = node(0x6D646961, &le32(MEDIA_TYPE_VIDEO));
    wrong.extend(node(0x41424344, &[0; 8]));
    let mut p = packet_over(&wrong);
    assert_eq!(FormatDescriptor::from_qt_packet(&mut p), Err(QtError::MagicMismatch));
    let other = node(0x6D646961, &le32(0x41424344));
    assert_eq!(FormatDescriptor::from_qt_packet(&mut packet_over(&other)), Err(QtError::InvalidValue));
}

#[test]
fn sample_buffer_children() {
    let mut opts = 10u64.to_le_bytes().to_vec();
    opts.extend(le32(1000));
    opts.extend(le32(1));
    opts.extend(0u64.to_le_bytes());
    let mut children = node(0x6F707473, &opts);
    children.extend(node(0x6E736D70, &le32(2)));
    children.extend(node(0x7373697A, &[le32(3), le32(4)].concat()));
    children.extend(node(0x73646174, &[9, 8, 7]));
    children.extend(node(0x66726565, &[0; 5]));
    children.extend(node(0x41424344, &[1]));
    children.extend(video_descriptor().encode().unwrap());
    let sbuf = node(0x73627566, &children);
    let s = SampleBuffer::from_qt_packet(&mut packet_over(&sbuf), MEDIA_TYPE_VIDEO).unwrap();
    assert_eq!(s.output_presentation_time_stamp().unwrap().value, 10);
    assert_eq!(s.num_samples, 2);
    assert_eq!(s.sample_sizes, Some(vec![3, 4]));
    assert_eq!(s.sample_data(), Some(&[9u8, 8, 7][..]));
    assert_eq!(s.media_type(), MEDIA_TYPE_VIDEO);
    let fd = s.format_description().unwrap();
    assert_eq!(parse_fdsc(&fd.encode().unwrap()).unwrap(), *fd);
    let not_sbuf = node(0x41424344, &[]);
    assert_eq!(
        SampleBuffer::from_qt_packet(&mut packet_over(&not_sbuf), MEDIA_TYPE_VIDEO),
        Err(QtError::MagicMismatch)
    );
}

#[test]
fn finalized_packets_carry_their_length() {
    let mut p = QTPacketPing::new(0xDEAD_BEEF_CAFE_BABE);
    let b = p.as_bytes().unwrap().to_vec();
    assert_eq!(b.len(), 16);
    assert_eq!(b[..4].to_vec(), le32(16));
    let mut q = QTPacket::new_with_magic(0x61626364);
    q.write(&[1, 2, 3]);
    let b = q.as_bytes().unwrap().to_vec();
    assert_eq!(b[..4].to_vec(), le32(b.len() as u32));
    let mut e = QTPacket::new();
    assert_eq!(e.as_bytes().unwrap().to_vec(), le32(4));
}

#[test]
fn packet_reads() {
    let mut p = QTPacket::from_bytes(&[12, 0, 0, 0, 1, 2, 3, 4, 5, 6, 7, 8, 99]).unwrap();
    assert_eq!(p.len(), 12);
    assert_eq!(p.read_u16(), Ok(0x0201));
    assert_eq!(p.read_u8(), Ok(3));
    let mut buf = [0u8; 8];
    assert_eq!(p.read(&mut buf), 5);
    assert_eq!(buf[..5].to_vec(), vec![4, 5, 6, 7, 8]);
    assert_eq!(p.read_u8(), Err(QtError::UnexpectedEof));
    assert!(matches!(QTPacket::from_bytes(&[20, 0, 0, 0, 1]), Err(QtError::UnexpectedEof)));
    assert!(matches!(QTPacket::from_bytes(&[2, 0, 0, 0]), Err(QtError::InvalidValue)));
    let mut q = QTPacket::from_bytes(&[8, 0, 0, 0, 1, 2, 3, 4]).unwrap();
    let mut four = [0u8; 4];
    assert_eq!(q.read_exact(&mut four), Ok(()));
    assert_eq!(four, [1, 2, 3, 4]);
    assert_eq!(q.read_exact(&mut four), Err(QtError::UnexpectedEof));
}

#[test]
fn nested_packets() {
    let mut bytes = node(0x61626364, &[7, 7]);
    bytes.extend(node(0x65666768, &[]));
    let mut p = packet_over(&bytes);
    let (mut a, m) = p.read_qt_packet_with_magic().unwrap();
    assert_eq!(m, 0x61626364);
    assert_eq!(a.read_u16(), Ok(0x0707));
    assert!(matches!(
        QTPacket::from_qt_packet_with_magic(&mut p, 0x11111111),
        Err(QtError::MagicMismatch)
    ));
    let mut q = packet_over(&[1, 2, 3, 4, 5]);
    let mut n = QTPacket::read_qt_packet(&mut q, 3).unwrap();
    assert_eq!(n.len(), 7);
    assert_eq!(n.read_u8(), Ok(1));
    assert_eq!(q.read_u16(), Ok(0x0504));
}

#[test]
fn reassembler_restores_packets() {
    let packets = vec![node(1, &[1, 2, 3]), node(2, &[]), node(3, &[9; 40])];
    let stream: Vec<u8> = packets.concat();
    for cut in [1usize, 3, 5, 7, 64] {
        let mut r = Reassembler::new();
        let mut out = Vec::new();
        for chunk in stream.chunks(cut) {
            out.extend(r.feed(chunk).unwrap());
        }
        assert_eq!(out, packets);
    }
    let mut r = Reassembler::new();
    assert_eq!(r.feed(&stream).unwrap(), packets);
    assert!(r.feed(&[]).unwrap().is_empty());
}

#[test]
fn reassembler_refuses_short_length() {
    let mut r = Reassembler::new();
    assert_eq!(r.feed(&[2, 0, 0, 0, 9]), Err(QtError::InvalidValue));
    let mut r = Reassembler::new();
    assert!(r.feed(&[12, 0, 0]).unwrap().is_empty());
    assert_eq!(r.feed(&[0, 1, 2, 3, 4, 5, 6, 7, 8]).unwrap(), vec![vec![12, 0, 0, 0, 1, 2, 3, 4, 5, 6, 7, 8]]);
}

#[test]
fn annex_b_stream() {
    let mut s = SampleBuffer::new(MEDIA_TYPE_VIDEO);
    let mut d = 2u32.to_be_bytes().to_vec();
    d.extend([0xAA, 0xBB]);
    d.extend(1u32.to_be_bytes());
    d.extend([0xCC]);
    s.sample_data = Some(d);
    s.format_description = Some(video_descriptor());
    let out = annex_b(&s).unwrap();
    let mut expected = vec![0, 0, 0, 1, 0x67, 0x64, 0x00, 0x1F, 0xAC, 0xD9, 0x40];
    expected.extend([0, 0, 0, 1, 0x68, 0xEF, 0xBC, 0xB0]);
    expected.extend([0, 0, 0, 1, 0xAA, 0xBB, 0, 0, 0, 1, 0xCC]);
    assert_eq!(out, expected);
    s.sample_data = Some(vec![0, 0, 0, 9, 1]);
    assert_eq!(annex_b(&s), Err(QtError::UnexpectedEof));
    let audio = SampleBuffer::new(MEDIA_TYPE_SOUND);
    assert!(annex_b(&audio).unwrap().is_empty());
}

#[test]
fn writes_move_the_cursor() {
    let p = QTPacket::new_with_magic(0x61626364);
    assert_eq!(p.pos(), 8);
    assert_eq!(p.len(), 8);
    let r = qtstream::qt_pkt::reply_packet(5);
    assert_eq!(r.pos(), 20);
    let mut c = qtstream::qt_pkt::reply_packet_with_clock_ref(5, 6);
    assert_eq!(c.pos(), 28);
    let mut expected = le32(28);
    expected.extend(le32(0x72706C79));
    expected.extend(5u64.to_le_bytes());
    expected.extend(le32(0));
    expected.extend(6u64.to_le_bytes());
    assert_eq!(c.as_bytes().unwrap().to_vec(), expected);
}

#[test]
fn write_overwrites_at_the_cursor() {
    let mut p = QTPacket::new();
    p.write(&[1, 2, 3, 4]);
    p.set_pos(5);
    p.write_u16(0x0A0B);
    assert_eq!(p.pos(), 7);
    assert_eq!(p.len(), 8);
    p.write(&[9, 9, 9]);
    assert_eq!(p.pos(), 10);
    p.set_pos(4);
    let mut rest = [0u8; 6];
    p.read_exact(&mut rest).unwrap();
    assert_eq!(rest, [1, 0x0B, 0x0A, 9, 9, 9]);
}

#[test]
fn key_value_node_length_is_checked() {
    let pair = [QTValue::IdxKey(1).encode().unwrap(), QTValue::IdxKey(2).encode().unwrap()].concat();
    let good = node(0x6B657976, &pair);
    assert_eq!(
        QTValue::from_qt_packet(&mut packet_over(&good)).unwrap(),
        kv(QTValue::IdxKey(1), QTValue::IdxKey(2))
    );
    let mut too_long = good.clone();
    too_long[..4].copy_from_slice(&le32(65535));
    assert_eq!(QTValue::from_qt_packet(&mut packet_over(&too_long)), Err(QtError::UnexpectedEof));
    let mut too_short = good.clone();
    too_short[..4].copy_from_slice(&le32(4));
    assert_eq!(QTValue::from_qt_packet(&mut packet_over(&too_short)), Err(QtError::InvalidValue));
    let mut extra = pair.clone();
    extra.extend([0, 0]);
    let loose = node(0x6B657976, &extra);
    assert_eq!(QTValue::from_qt_packet(&mut packet_over(&loose)), Err(QtError::InvalidValue));
    let mut cut = pair.clone();
    cut.truncate(pair.len() - 1);
    let short_value = node(0x6B657976, &cut);
    assert_eq!(QTValue::from_qt_packet(&mut packet_over(&short_value)), Err(QtError::UnexpectedEof));
}
