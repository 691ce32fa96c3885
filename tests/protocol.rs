use qtstream::coremedia::sample::SampleBuffer;
use qtstream::error::QtError;
use qtstream::qt::{Action, QuickTime};
use qtstream::qt_device::{qt_hpa1_device_info, qt_hpd1_device_info};
use qtstream::wire::MEDIA_TYPE_VIDEO;

fn le32(n: u32) -> Vec<u8> {
    n.to_le_bytes().to_vec()
}

fn le64(n: u64) -> Vec<u8> {
    n.to_le_bytes().to_vec()
}

fn framed(body: &[u8]) -> Vec<u8> {
    let mut v = le32((body.len() + 4) as u32);
    v.extend_from_slice(body);
    v
}

fn sync_packet(clock_ref: u64, magic: u32, corr: u64, body: &[u8]) -> Vec<u8> {
    let mut b = le32(0x73796E63);
    b.extend(le64(clock_ref));
    b.extend(le32(magic));
    b.extend(le64(corr));
    b.extend_from_slice(body);
    framed(&b)
}

fn asyn_packet(clock_ref: u64, magic: u32, body: &[u8]) -> Vec<u8> {
    let mut b = le32(0x6173796E);
    b.extend(le64(clock_ref));
    b.extend(le32(magic));
    b.extend_from_slice(body);
    framed(&b)
}

fn host_asyn(header: u64, sub: u32, payload: &[u8]) -> Vec<u8> {
    let mut b = le32(0x6173796E);
    b.extend(le64(header));
    b.extend(le32(sub));
    b.extend_from_slice(payload);
    framed(&b)
}

fn writes(actions: &[Action]) -> Vec<Vec<u8>> {
    actions
        .iter()
        .filter_map(|a| match a {
            Action::Write(w) => Some(w.clone()),
            _ => None,
        })
        .collect()
}

fn empty_sbuf() -> Vec<u8> {
    let mut v = le32(8);
    v.extend(le32(0x73627566));
    v
}

fn opts_sbuf(value: u64) -> Vec<u8> {
    let mut opts = le32(0x6F707473);
    opts.extend(le64(value));
    opts.extend(le32(1000));
    opts.extend(le32(1));
    opts.extend(le64(0));
    let opts = framed(&opts);
    let mut sbuf = le32(0x73627566);
    sbuf.extend(opts);
    framed(&sbuf)
}

#[test]
fn ping_is_echoed() {
    // the magic 0x70696E67 ('ping') as a little-endian u32
    let ping: Vec<u8> = vec![
        0x10, 0x00, 0x00, 0x00, 0x67, 0x6E, 0x69, 0x70, 0xDE, 0xAD, 0xBE, 0xEF, 0xCA, 0xFE, 0xBA,
        0xBE,
    ];
    let mut qt = QuickTime::new();
    let before = qt;
    let out = qt.handle_packet(&ping, 5).unwrap();
    assert_eq!(writes(&out), vec![ping.clone()]);
    assert_eq!(out.len(), 1);
    assert_eq!(qt, before);
}

#[test]
fn go_sync_is_answered() {
    let mut input: Vec<u8> = vec![0x20, 0x00, 0x00, 0x00, 0x63, 0x6E, 0x79, 0x73];
    input.extend([0u8; 8]);
    input.extend([0x20, 0x21, 0x6F, 0x67]);
    input.extend([0x11, 0, 0, 0, 0, 0, 0, 0]);
    input.extend([0u8; 4]);
    assert_eq!(input.len(), 0x20);
    let mut qt = QuickTime::new();
    let out = qt.handle_packet(&input, 0).unwrap();
    let w = writes(&out);
    assert_eq!(w.len(), 1);
    let expected_body: Vec<u8> = vec![
        0x79, 0x6C, 0x70, 0x72, 0x11, 0, 0, 0, 0, 0, 0, 0, 0, 0, 0, 0, 0, 0, 0, 0,
    ];
    assert_eq!(w[0][4..].to_vec(), expected_body);
    // the length header counts itself
    assert_eq!(w[0][..4].to_vec(), le32(24));
}

#[test]
fn clok_names_host_clock() {
    let mut qt = QuickTime::new();
    let out = qt.handle_packet(&sync_packet(1, 0x636C6F6B, 7, &[]), 100).unwrap();
    let w = writes(&out);
    assert_eq!(w.len(), 1);
    let reply = &w[0];
    assert_eq!(reply[reply.len() - 8..].to_vec(), le64(0x10001));
    assert_eq!(qt.clock.unwrap().id, 0x10001);
    assert_eq!(qt.clock.unwrap().epoch_ns, 100);
}

#[test]
fn cwpa_announces_devices() {
    let dcr: u64 = 0x1234;
    let mut qt = QuickTime::new();
    let out = qt.handle_packet(&sync_packet(0, 0x63777061, 9, &le64(dcr)), 50).unwrap();
    let w = writes(&out);
    assert_eq!(w.len(), 3);
    let hpd1 = host_asyn(1, 0x68706431, &qt_hpd1_device_info().encode().unwrap());
    assert_eq!(w[0], hpd1);
    let mut reply = le32(0x72706C79);
    reply.extend(le64(9));
    reply.extend(le32(0));
    reply.extend(le64(dcr + 1000));
    reply.extend(hpd1.clone());
    assert_eq!(w[1], framed(&reply));
    let hpa1 = host_asyn(dcr, 0x68706131, &qt_hpa1_device_info().encode().unwrap());
    assert_eq!(w[2], hpa1);
    assert_eq!(qt.device_audio_clock, Some(dcr));
    assert_eq!(qt.local_audio_clock.unwrap().id, dcr + 1000);
}

fn cvrp_body(dcr: u64) -> Vec<u8> {
    let mut body = le64(dcr);
    let mut dict = le32(0x64696374);
    dict.truncate(4);
    body.extend(framed(&dict));
    body
}

#[test]
fn cvrp_records_need_clock() {
    let mut qt = QuickTime::new();
    let out = qt.handle_packet(&sync_packet(0, 0x63767270, 3, &cvrp_body(0x55)), 0).unwrap();
    let w = writes(&out);
    assert_eq!(w.len(), 2);
    assert_eq!(w[0], host_asyn(0x55, 0x6E656564, &[]));
    assert_eq!(w[1][w[1].len() - 8..].to_vec(), le64(0x55 + 0x1000AF));
    assert_eq!(qt.need_clock_ref, Some(0x55));
}

#[test]
fn feed_answers_need_and_delivers() {
    let mut qt = QuickTime::new();
    qt.handle_packet(&sync_packet(0, 0x63767270, 3, &cvrp_body(0x77)), 0).unwrap();
    let out = qt.handle_packet(&asyn_packet(0, 0x66656564, &empty_sbuf()), 0).unwrap();
    assert_eq!(out.len(), 2);
    let w = writes(&out);
    assert_eq!(w, vec![host_asyn(0x77, 0x6E656564, &[])]);
    match &out[1] {
        Action::Deliver(s) => assert_eq!(s.media_type(), MEDIA_TYPE_VIDEO),
        other => panic!("expected a sample buffer, got {:?}", other),
    }
}

#[test]
fn feed_without_cvrp_is_refused() {
    let mut qt = QuickTime::new();
    let r = qt.handle_packet(&asyn_packet(0, 0x66656564, &empty_sbuf()), 0);
    assert!(matches!(r, Err(QtError::Protocol)));
}

#[test]
fn eat_before_cwpa_is_protocol_error() {
    let mut qt = QuickTime::new();
    let before = qt;
    let r = qt.handle_packet(&asyn_packet(0, 0x65617421, &empty_sbuf()), 0);
    assert!(matches!(r, Err(QtError::Protocol)));
    assert_eq!(qt, before);
}

#[test]
fn eat_pairs_clocks_and_skew_reports_them() {
    let mut qt = QuickTime::new();
    qt.handle_packet(&sync_packet(0, 0x63777061, 1, &le64(5)), 1_000).unwrap();
    let out = qt.handle_packet(&asyn_packet(0, 0x65617421, &opts_sbuf(40)), 3_000).unwrap();
    assert_eq!(out.len(), 1);
    assert_eq!(qt.start_time_device_audio_clock.unwrap().value, 40);
    assert_eq!(qt.start_time_local_audio_clock.unwrap().value, 2_000);
    qt.handle_packet(&asyn_packet(0, 0x65617421, &opts_sbuf(90)), 7_000).unwrap();
    assert_eq!(qt.start_time_device_audio_clock.unwrap().value, 40);
    assert_eq!(qt.last_eat_frame_received_device_audio_clock.unwrap().value, 90);
    assert_eq!(qt.last_eat_frame_received_local_audio_clock.unwrap().value, 6_000);
    let out = qt.handle_packet(&sync_packet(0, 0x736B6577, 4, &[]), 8_000).unwrap();
    match &out[0] {
        Action::Skew { correlation_id, start_local, last_local, start_device, last_device } => {
            assert_eq!(*correlation_id, 4);
            assert_eq!(start_local.value, 2_000);
            assert_eq!(last_local.value, 6_000);
            assert_eq!(start_device.value, 40);
            assert_eq!(last_device.value, 90);
        },
        other => panic!("expected a skew request, got {:?}", other),
    }
}

#[test]
fn skew_before_audio_is_refused() {
    let mut qt = QuickTime::new();
    let r = qt.handle_packet(&sync_packet(0, 0x736B6577, 4, &[]), 0);
    assert!(matches!(r, Err(QtError::Protocol)));
}

#[test]
fn time_reply_carries_host_clock() {
    let mut qt = QuickTime::new();
    assert!(matches!(
        qt.handle_packet(&sync_packet(0, 0x74696D65, 2, &[]), 0),
        Err(QtError::Protocol)
    ));
    qt.handle_packet(&sync_packet(1, 0x636C6F6B, 7, &[]), 100).unwrap();
    let out = qt.handle_packet(&sync_packet(0, 0x74696D65, 2, &[]), 350).unwrap();
    let w = writes(&out);
    assert_eq!(w.len(), 1);
    let mut t = le64(250);
    t.extend(le32(1_000_000_000));
    t.extend(le32(1));
    t.extend(le64(0));
    assert_eq!(w[0][20..].to_vec(), t);
}

#[test]
fn sync_replies_open_with_rply() {
    for magic in [0x676F2120u32, 0x73746F70, 0x636C6F6B] {
        let mut qt = QuickTime::new();
        let out = qt.handle_packet(&sync_packet(0, magic, 0xABCD, &[0, 0, 0, 0]), 0).unwrap();
        let w = writes(&out);
        assert_eq!(w.len(), 1);
        let mut head = le32(0x72706C79);
        head.extend(le64(0xABCD));
        head.extend(le32(0));
        assert_eq!(w[0][4..20].to_vec(), head);
    }
}

#[test]
fn stop_reply_has_zero_body() {
    let mut qt = QuickTime::new();
    let out = qt.handle_packet(&sync_packet(0, 0x73746F70, 1, &[]), 0).unwrap();
    let w = writes(&out);
    assert_eq!(w[0].len(), 24);
    assert_eq!(w[0][20..].to_vec(), vec![0, 0, 0, 0]);
}

#[test]
fn afmt_reply_carries_error_dictionary() {
    let mut qt = QuickTime::new();
    let mut asbd = qtstream::coremedia::audio_desc::AudioStreamDescription::default().as_buffer();
    asbd.truncate(40);
    let out = qt.handle_packet(&sync_packet(0, 0x61666D74, 6, &asbd), 0).unwrap();
    let w = writes(&out);
    let dict = qtstream::qt_device::afmt_reply_value().encode().unwrap();
    assert_eq!(w[0][20..].to_vec(), dict);
}

#[test]
fn unknown_magics_are_ignored() {
    let mut qt = QuickTime::new();
    let out = qt.handle_packet(&asyn_packet(0, 0x73707270, &[]), 0).unwrap();
    assert!(out.is_empty());
    let out = qt.handle_packet(&sync_packet(0, 0x41424344, 0, &[]), 0).unwrap();
    assert!(out.is_empty());
    let out = qt.handle_packet(&framed(&le32(0x41424344)), 0).unwrap();
    assert!(out.is_empty());
}

#[test]
fn truncated_packets_fail() {
    let mut qt = QuickTime::new();
    assert!(matches!(qt.handle_packet(&[1, 2, 3], 0), Err(QtError::UnexpectedEof)));
    let mut short_sync = le32(12);
    short_sync.extend(le32(0x73796E63));
    short_sync.extend(le32(0));
    assert!(matches!(qt.handle_packet(&short_sync, 0), Err(QtError::UnexpectedEof)));
}

#[test]
fn close_session_turns_devices_off() {
    let mut qt = QuickTime::new();
    assert!(qt.close_session().is_empty());
    qt.handle_packet(&sync_packet(0, 0x63777061, 1, &le64(42)), 0).unwrap();
    let w = writes(&qt.close_session());
    assert_eq!(w, vec![host_asyn(42, 0x68706130, &[]), host_asyn(1, 0x68706430, &[])]);
}

#[test]
fn sample_buffer_new_is_empty() {
    let s = SampleBuffer::new(MEDIA_TYPE_VIDEO);
    assert_eq!(s.media_type(), MEDIA_TYPE_VIDEO);
    assert!(s.sample_data().is_none());
    assert!(s.format_description().is_none());
    assert!(s.output_presentation_time_stamp().is_none());
}

#[test]
fn scaled_clock_reads_in_its_scale() {
    let c = qtstream::coremedia::clock::Clock::new_with_host_time_and_scale(1, 48_000, 1_000);
    let t = c.get_time(1_000 + 2_000_000_000);
    assert_eq!(t.value, 96_000);
    assert_eq!(t.scale, 48_000);
    let n = qtstream::coremedia::clock::Clock::new_with_host_time(1, 10);
    assert_eq!(n.get_time(5).value, 0);
    assert_eq!(n.get_time(1_010).value, 1_000);
}
