use knoob::records::{
    ap_record_for_frame, count_frame, device_record_for_frame, event_for_frame, event_type_for,
    is_ap_frame, is_station_mac, same_mac, ApRecord, DeviceRecord, EventType, FrameCountRecord,
    FrameInfo,
};

fn frame(frame_type: u8, frame_subtype: u8) -> FrameInfo {
    FrameInfo {
        timestamp_us: 5_000,
        frame_type,
        frame_subtype,
        bssid: [2, 2, 2, 2, 2, 2],
        src: [1, 2, 3, 4, 5, 6],
        channel: 11,
        rssi: -40,
        is_randomized: 1,
    }
}

#[test]
fn beacons_and_probe_responses_are_ap_frames() {
    assert!(is_ap_frame(&frame(0, 8)));
    assert!(is_ap_frame(&frame(0, 5)));
    assert!(!is_ap_frame(&frame(0, 4)));
    assert!(!is_ap_frame(&frame(2, 8)));
}

#[test]
fn new_ap_record_starts_now() {
    let r = ap_record_for_frame(&frame(0, 8), &None);
    assert_eq!(r.bssid, [2; 6]);
    assert_eq!(r.ssid, None);
    assert_eq!((r.channel, r.rssi, r.mfpr, r.mfpc), (11, -40, false, false));
    assert_eq!((r.first_seen, r.last_seen), (5_000, 5_000));
}

#[test]
fn ap_record_keeps_ssid_and_first_sighting() {
    let old = ApRecord {
        bssid: [2; 6],
        ssid: Some("home".to_string()),
        channel: 1,
        rssi: -90,
        mfpr: true,
        mfpc: true,
        first_seen: 100,
        last_seen: 200,
    };
    let r = ap_record_for_frame(&frame(0, 5), &Some(old));
    assert_eq!(r.ssid.as_deref(), Some("home"));
    assert_eq!((r.first_seen, r.last_seen), (100, 5_000));
    assert_eq!((r.channel, r.rssi), (11, -40));
}

#[test]
fn device_record_keeps_first_sighting() {
    let old = DeviceRecord {
        mac: [1, 2, 3, 4, 5, 6],
        last_bssid: [9; 6],
        is_randomized: false,
        first_seen: 7,
        last_seen: 8,
    };
    let r = device_record_for_frame(&frame(2, 0), &Some(old));
    assert_eq!(r.last_bssid, [2; 6]);
    assert!(r.is_randomized);
    assert_eq!((r.first_seen, r.last_seen), (7, 5_000));
    let fresh = device_record_for_frame(&frame(2, 0), &None);
    assert_eq!(fresh.first_seen, 5_000);
}

#[test]
fn zero_and_broadcast_are_not_stations() {
    assert!(!is_station_mac(&[0; 6]));
    assert!(!is_station_mac(&[0xff; 6]));
    assert!(is_station_mac(&[0, 0, 0, 0, 0, 1]));
    assert!(is_station_mac(&[0xff, 0xff, 0xff, 0xff, 0xff, 0xfe]));
}

#[test]
fn event_types_by_subtype() {
    assert_eq!(event_type_for(0, 0), Some(EventType::Assoc));
    assert_eq!(event_type_for(0, 2), Some(EventType::Reassoc));
    assert_eq!(event_type_for(0, 10), Some(EventType::Disassoc));
    assert_eq!(event_type_for(0, 12), Some(EventType::Deauth));
    assert_eq!(event_type_for(0, 8), None);
    assert_eq!(event_type_for(1, 0), None);
}

#[test]
fn events_only_from_stations() {
    let e = event_for_frame(&frame(0, 12)).unwrap();
    assert_eq!((e.mac, e.bssid, e.event_type, e.timestamp), ([1, 2, 3, 4, 5, 6], [2; 6], EventType::Deauth, 5_000));
    let mut f = frame(0, 0);
    f.src = [0xff; 6];
    assert!(event_for_frame(&f).is_none());
    assert!(event_for_frame(&frame(0, 4)).is_none());
}

#[test]
fn counting_raises_one_counter() {
    let r = FrameCountRecord { mgmt: 1, ctrl: 2, data: 3 };
    assert_eq!(count_frame(&r, 0), Some(FrameCountRecord { mgmt: 2, ctrl: 2, data: 3 }));
    assert_eq!(count_frame(&r, 1), Some(FrameCountRecord { mgmt: 1, ctrl: 3, data: 3 }));
    assert_eq!(count_frame(&r, 2), Some(FrameCountRecord { mgmt: 1, ctrl: 2, data: 4 }));
    assert_eq!(count_frame(&r, 3), Some(r));
    assert_eq!(count_frame(&FrameCountRecord::default(), 0), Some(FrameCountRecord { mgmt: 1, ctrl: 0, data: 0 }));
}

#[test]
fn counting_past_u32_max_is_refused() {
    let r = FrameCountRecord { mgmt: u32::MAX, ctrl: 0, data: u32::MAX };
    assert_eq!(count_frame(&r, 0), None);
    assert_eq!(count_frame(&r, 2), None);
    assert_eq!(count_frame(&r, 1), Some(FrameCountRecord { mgmt: u32::MAX, ctrl: 1, data: u32::MAX }));
}

#[test]
fn mac_equality() {
    assert!(same_mac(&[1, 2, 3, 4, 5, 6], &[1, 2, 3, 4, 5, 6]));
    assert!(!same_mac(&[1, 2, 3, 4, 5, 6], &[1, 2, 3, 4, 5, 7]));
}
