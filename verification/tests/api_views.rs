use knoob::api::{
    ap_responses, count_devices_on, default_time_range, device_responses, device_series_points,
    event_responses, event_type_str, mac_to_string, total_points, TimeRangeQuery,
};
use knoob::records::{ApRecord, DeviceRecord, EventRecord, EventType, FrameCountRecord};

fn device(mac: u8, bssid: u8) -> DeviceRecord {
    DeviceRecord { mac: [mac; 6], last_bssid: [bssid; 6], is_randomized: mac % 2 == 0, first_seen: 1, last_seen: 2 }
}

#[test]
fn mac_text_is_lower_hex_with_colons() {
    assert_eq!(mac_to_string(&[0x00, 0x1a, 0x2b, 0xff, 0x09, 0xa0]), "00:1a:2b:ff:09:a0");
    assert_eq!(mac_to_string(&[0; 6]), "00:00:00:00:00:00");
}

#[test]
fn event_type_names() {
    let mut e = EventRecord { mac: [1; 6], bssid: [2; 6], event_type: EventType::Assoc, timestamp: 0 };
    assert_eq!(event_type_str(&e), "assoc");
    e.event_type = EventType::Reassoc;
    assert_eq!(event_type_str(&e), "reassoc");
    e.event_type = EventType::Disassoc;
    assert_eq!(event_type_str(&e), "disassoc");
    e.event_type = EventType::Deauth;
    assert_eq!(event_type_str(&e), "deauth");
}

#[test]
fn time_range_defaults() {
    assert_eq!(default_time_range(&TimeRangeQuery { from_us: None, to_us: None }), (0, u64::MAX));
    assert_eq!(default_time_range(&TimeRangeQuery { from_us: Some(5), to_us: None }), (5, u64::MAX));
    assert_eq!(default_time_range(&TimeRangeQuery { from_us: None, to_us: Some(9) }), (0, 9));
}

#[test]
fn access_points_count_their_devices() {
    let aps = vec![
        ApRecord { bssid: [7; 6], ssid: Some("x".to_string()), channel: 6, rssi: -50, mfpr: false, mfpc: true, first_seen: 1, last_seen: 9 },
        ApRecord { bssid: [8; 6], ssid: None, channel: 36, rssi: -70, mfpr: false, mfpc: false, first_seen: 3, last_seen: 4 },
    ];
    let devices = vec![device(1, 7), device(2, 7), device(3, 9)];
    assert_eq!(count_devices_on(&devices, &[7; 6]), 2);
    let r = ap_responses(&aps, &devices);
    assert_eq!(r.len(), 2);
    assert_eq!(r[0].bssid, "07:07:07:07:07:07");
    assert_eq!(r[0].ssid.as_deref(), Some("x"));
    assert_eq!(r[0].device_count, 2);
    assert!(r[0].mfpc);
    assert_eq!(r[1].device_count, 0);
    assert_eq!((r[1].channel, r[1].rssi, r[1].first_seen, r[1].last_seen), (36, -70, 3, 4));
}

#[test]
fn device_rows() {
    let r = device_responses(&vec![device(0xab, 0x01)]);
    assert_eq!(r.len(), 1);
    assert_eq!(r[0].mac, "ab:ab:ab:ab:ab:ab");
    assert_eq!(r[0].last_bssid, "01:01:01:01:01:01");
    assert!(!r[0].is_randomized);
    assert_eq!((r[0].first_seen, r[0].last_seen), (1, 2));
}

#[test]
fn total_series_points() {
    let r = total_points(&vec![(3, 10), (4, 0)]);
    assert_eq!(r.len(), 2);
    assert_eq!((r[0].timestamp_sec, r[0].total), (3, 10));
    assert_eq!((r[1].timestamp_sec, r[1].total), (4, 0));
}

#[test]
fn device_series_totals() {
    let counts = vec![(10, FrameCountRecord { mgmt: 1, ctrl: 2, data: 3 }), (11, FrameCountRecord { mgmt: 0, ctrl: 0, data: 7 })];
    let r = device_series_points(&[0x10, 0x20, 0x30, 0x40, 0x50, 0x60], &counts).unwrap();
    assert_eq!(r.len(), 2);
    assert_eq!(r[0].mac, "10:20:30:40:50:60");
    assert_eq!((r[0].timestamp_sec, r[0].mgmt, r[0].ctrl, r[0].data, r[0].total), (10, 1, 2, 3, 6));
    assert_eq!((r[1].timestamp_sec, r[1].total), (11, 7));
}

#[test]
fn device_series_total_overflow() {
    let counts = vec![(10, FrameCountRecord { mgmt: u32::MAX, ctrl: 1, data: 0 })];
    assert!(device_series_points(&[1; 6], &counts).is_none());
    let fits = vec![(10, FrameCountRecord { mgmt: u32::MAX - 1, ctrl: 1, data: 0 })];
    assert_eq!(device_series_points(&[1; 6], &fits).unwrap()[0].total, u32::MAX);
}

#[test]
fn event_rows() {
    let events = vec![EventRecord { mac: [0xde; 6], bssid: [0xad; 6], event_type: EventType::Disassoc, timestamp: 77 }];
    let r = event_responses(&events);
    assert_eq!(r.len(), 1);
    assert_eq!(r[0].mac, "de:de:de:de:de:de");
    assert_eq!(r[0].bssid, "ad:ad:ad:ad:ad:ad");
    assert_eq!(r[0].event_type, "disassoc");
    assert_eq!(r[0].timestamp, 77);
}
