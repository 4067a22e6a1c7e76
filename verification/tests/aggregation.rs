use knoob::records::{EventRecord, EventType, FrameCountRecord};
use knoob::series::{aggregate_totals, event_counts, sum_by_key};

fn rec(mgmt: u32, ctrl: u32, data: u32) -> FrameCountRecord {
    FrameCountRecord { mgmt, ctrl, data }
}

fn ev(mac: u8, event_type: EventType) -> EventRecord {
    EventRecord { mac: [mac, 0, 0, 0, 0, mac], bssid: [0; 6], event_type, timestamp: 0 }
}

#[test]
fn sums_per_key_sorted() {
    let r = sum_by_key(&vec![(5, 1, 2), (3, 4, 0), (5, 10, 20), (1, 0, 1)]).unwrap();
    assert_eq!(r, vec![(1, 0, 1), (3, 4, 0), (5, 11, 22)]);
    assert_eq!(sum_by_key(&vec![]).unwrap(), vec![]);
}

#[test]
fn sums_per_key_overflow() {
    assert!(sum_by_key(&vec![(1, u32::MAX, 0), (1, 1, 0)]).is_none());
    assert!(sum_by_key(&vec![(1, 0, u32::MAX), (2, 0, 5), (1, 0, 1)]).is_none());
    assert_eq!(sum_by_key(&vec![(1, u32::MAX, 0), (2, 1, 0)]).unwrap(), vec![(1, u32::MAX, 0), (2, 1, 0)]);
}

#[test]
fn totals_per_second_across_devices() {
    let rows = vec![(10, rec(1, 1, 1)), (10, rec(0, 0, 5)), (12, rec(2, 0, 0)), (11, rec(0, 1, 0))];
    assert_eq!(aggregate_totals(&rows).unwrap(), vec![(10, 8), (11, 1), (12, 2)]);
    assert_eq!(aggregate_totals(&vec![]).unwrap(), vec![]);
}

#[test]
fn totals_overflow() {
    assert!(aggregate_totals(&vec![(1, rec(u32::MAX, 1, 0))]).is_none());
    assert!(aggregate_totals(&vec![(1, rec(u32::MAX, 0, 0)), (1, rec(1, 0, 0))]).is_none());
    assert_eq!(aggregate_totals(&vec![(1, rec(u32::MAX, 0, 0)), (2, rec(1, 0, 0))]).unwrap(), vec![(1, u32::MAX), (2, 1)]);
}

#[test]
fn connects_and_disconnects_per_device_sorted_by_mac_text() {
    let events = vec![
        ev(0xb0, EventType::Assoc),
        ev(0x0a, EventType::Deauth),
        ev(0xb0, EventType::Disassoc),
        ev(0xb0, EventType::Reassoc),
        ev(0x0a, EventType::Assoc),
        ev(0x90, EventType::Disassoc),
    ];
    let r = event_counts(&events).unwrap();
    let got: Vec<(String, u32, u32)> = r.into_iter().map(|c| (c.mac, c.connects, c.disconnects)).collect();
    assert_eq!(
        got,
        vec![
            ("0a:00:00:00:00:0a".to_string(), 1, 1),
            ("90:00:00:00:00:90".to_string(), 0, 1),
            ("b0:00:00:00:00:b0".to_string(), 2, 1),
        ]
    );
}

#[test]
fn no_events_no_counts() {
    assert!(event_counts(&vec![]).unwrap().is_empty());
}

#[test]
fn counts_sum_to_number_of_events() {
    let events = vec![ev(1, EventType::Assoc), ev(2, EventType::Deauth), ev(1, EventType::Deauth), ev(3, EventType::Reassoc)];
    let r = event_counts(&events).unwrap();
    let total: u32 = r.iter().map(|c| c.connects + c.disconnects).sum();
    assert_eq!(total as usize, events.len());
    let mut texts: Vec<String> = r.iter().map(|c| c.mac.clone()).collect();
    let before = texts.clone();
    texts.sort();
    assert_eq!(texts, before);
}
