use qtstream::qt_device::{qt_hpa1_device_info, qt_hpd1_device_info};
use qtstream::qt_value::QTValue;
use qtstream::usb::{
    activation_index, find_qt_interface, is_qt_interface, needs_switch, select_bulk_endpoints,
    serial_matches, BulkEndpoints, EndpointInfo,
};

fn entry_key(v: &QTValue) -> String {
    v.as_pair().unwrap().key().as_string().unwrap()
}

#[test]
fn display_info_entries() {
    let v = qt_hpd1_device_info();
    let entries = v.as_vec().unwrap();
    let keys: Vec<String> = entries.iter().map(entry_key).collect();
    assert_eq!(keys, vec!["Valeria", "HEVCDecoderSupports444", "DisplaySize"]);
    assert_eq!(entries[0].as_pair().unwrap().value().as_bool(), Some(true));
    let size = entries[2].as_pair().unwrap().value().as_vec().unwrap();
    assert_eq!(f64::from_bits(size[0].as_pair().unwrap().value().as_f64().unwrap()), 1920.0);
    assert_eq!(f64::from_bits(size[1].as_pair().unwrap().value().as_f64().unwrap()), 1200.0);
}

#[test]
fn audio_info_entries() {
    let v = qt_hpa1_device_info();
    let entries = v.as_vec().unwrap();
    let keys: Vec<String> = entries.iter().map(entry_key).collect();
    assert_eq!(
        keys,
        vec!["BufferAheadInterval", "deviceUID", "ScreenLatency", "formats", "EDIDAC3Support", "deviceName"]
    );
    assert_eq!(f64::from_bits(entries[0].as_pair().unwrap().value().as_f64().unwrap()), 0.073);
    assert_eq!(f64::from_bits(entries[2].as_pair().unwrap().value().as_f64().unwrap()), 0.04);
    assert_eq!(entries[3].as_pair().unwrap().value().as_data().unwrap().len(), 56);
    assert_eq!(entries[4].as_pair().unwrap().value().as_u32(), Some(0));
    assert_eq!(entries[5].as_pair().unwrap().value().as_string(), Some("Valeria".to_string()));
}

#[test]
fn value_accessors() {
    assert_eq!(QTValue::UInt64(5).as_u64(), Some(5));
    assert_eq!(QTValue::UInt64(5).as_u32(), None);
    assert_eq!(QTValue::IdxKey(49).as_idx(), Some(49));
    assert_eq!(QTValue::Boolean(false).as_data(), None);
}

#[test]
fn serial_prefix_matching() {
    assert!(serial_matches(b"00008030", b"00008030001A"));
    assert!(!serial_matches(b"00008031", b"00008030001A"));
    assert!(!serial_matches(b"00008030001A99", b"00008030001A"));
    assert!(serial_matches(b"", b"x"));
}

#[test]
fn qt_interface_detection() {
    assert!(is_qt_interface(0xFF, 0x2A));
    assert!(!is_qt_interface(0xFF, 0xFE));
    assert_eq!(find_qt_interface(&vec![(8, 6), (0xFF, 0xFE), (0xFF, 0x2A)]), Some(2));
    assert_eq!(find_qt_interface(&vec![(8, 6)]), None);
    assert!(needs_switch(false, true));
    assert!(!needs_switch(true, true));
    assert_eq!(activation_index(true), 2);
    assert_eq!(activation_index(false), 0);
}

#[test]
fn bulk_endpoint_selection() {
    let eps = vec![
        EndpointInfo { address: 0x81, max_packet_size: 512, is_in: true, is_bulk: true },
        EndpointInfo { address: 0x83, max_packet_size: 64, is_in: true, is_bulk: false },
        EndpointInfo { address: 0x02, max_packet_size: 512, is_in: false, is_bulk: true },
    ];
    assert_eq!(
        select_bulk_endpoints(&eps),
        BulkEndpoints { in_address: 0x81, in_max_packet_size: 512, out_address: 0x02, out_max_packet_size: 512 }
    );
}
