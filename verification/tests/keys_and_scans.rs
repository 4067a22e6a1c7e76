use knoob::keys::{event_key, frame_key, key_has_mac, read_key_time, KEY_LEN, MICROS_PER_SEC};
use knoob::scan::{
    event_row_step_for_mac, frame_row_step_for_mac, frame_row_step_total, total_start_key,
    ScanStep,
};

const MAC_A: [u8; 6] = [0x00, 0x11, 0x22, 0x33, 0x44, 0x55];
const MAC_B: [u8; 6] = [0xaa, 0xbb, 0xcc, 0xdd, 0xee, 0xff];

#[test]
fn frame_key_is_big_endian_second_then_mac() {
    let key = frame_key(1_700_000_123_456_789, &MAC_A);
    assert_eq!(key.len(), KEY_LEN);
    assert_eq!(&key[..8], &1_700_000_123u64.to_be_bytes());
    assert_eq!(&key[8..], &MAC_A);
}

#[test]
fn frame_key_drops_sub_second_part() {
    assert_eq!(frame_key(5_000_000, &MAC_A), frame_key(5_999_999, &MAC_A));
    assert_ne!(frame_key(5_999_999, &MAC_A), frame_key(6_000_000, &MAC_A));
}

#[test]
fn event_key_is_big_endian_timestamp_then_mac() {
    let key = event_key(0x0102_0304_0506_0708, &MAC_B);
    assert_eq!(key, [1, 2, 3, 4, 5, 6, 7, 8, 0xaa, 0xbb, 0xcc, 0xdd, 0xee, 0xff]);
}

#[test]
fn key_order_is_time_order() {
    // byte order of keys follows the seconds, whatever the MACs
    assert!(frame_key(1_000_000, &MAC_B) < frame_key(2_000_000, &MAC_A));
    assert!(frame_key(255 * MICROS_PER_SEC, &MAC_B) < frame_key(256 * MICROS_PER_SEC, &MAC_A));
    assert!(event_key(255, &MAC_B) < event_key(256, &MAC_A));
    // within one second, by MAC
    assert!(frame_key(3_000_000, &MAC_A) < frame_key(3_500_000, &MAC_B));
}

#[test]
fn key_time_and_mac_read_back() {
    let key = frame_key(42_123_456, &MAC_B);
    assert_eq!(read_key_time(&key), 42);
    assert!(key_has_mac(&key, &MAC_B));
    assert!(!key_has_mac(&key, &MAC_A));
    let ev = event_key(u64::MAX, &MAC_A);
    assert_eq!(read_key_time(&ev), u64::MAX);
}

#[test]
fn frame_scan_step_cases() {
    // malformed key ends the scan
    assert_eq!(frame_row_step_for_mac(&[1, 2, 3], &MAC_A, u64::MAX), ScanStep::Stop);
    // another device is passed over
    let other = frame_key(10_000_000, &MAC_B);
    assert_eq!(frame_row_step_for_mac(&other, &MAC_A, u64::MAX), ScanStep::Skip);
    // in range: taken with its second
    let mine = frame_key(10_000_000, &MAC_A);
    assert_eq!(frame_row_step_for_mac(&mine, &MAC_A, 10_000_000), ScanStep::Take(10));
    assert_eq!(frame_row_step_for_mac(&mine, &MAC_A, 10_999_999), ScanStep::Take(10));
    // second starts after to_us: stop
    assert_eq!(frame_row_step_for_mac(&mine, &MAC_A, 9_999_999), ScanStep::Stop);
}

#[test]
fn total_scan_step_cases() {
    let k = frame_key(7_250_000, &MAC_B);
    assert_eq!(frame_row_step_total(&k, 7_000_000), ScanStep::Take(7));
    assert_eq!(frame_row_step_total(&k, 6_999_999), ScanStep::Stop);
    assert_eq!(frame_row_step_total(&k[..13], u64::MAX), ScanStep::Stop);
}

#[test]
fn total_start_key_is_second_and_zero_mac() {
    let k = total_start_key(9_876_543);
    assert_eq!(&k[..8], &9u64.to_be_bytes());
    assert_eq!(&k[8..], &[0u8; 6]);
    // every key of that second sorts at or after it
    assert!(frame_key(9_000_000, &MAC_A) >= k);
    assert!(frame_key(8_999_999, &MAC_B) < k);
}

#[test]
fn event_scan_step_cases() {
    let k = event_key(1234, &MAC_A);
    assert_eq!(event_row_step_for_mac(&k, &MAC_A, 1234), ScanStep::Take(1234));
    assert_eq!(event_row_step_for_mac(&k, &MAC_A, 1233), ScanStep::Stop);
    assert_eq!(event_row_step_for_mac(&k, &MAC_B, 0), ScanStep::Skip);
    assert_eq!(event_row_step_for_mac(&[], &MAC_B, 0), ScanStep::Stop);
}

/// Runs a scan the way the store's cursor does: over sorted keys from a start.
fn run(keys: &[[u8; 14]], start: [u8; 14], step: impl Fn(&[u8]) -> ScanStep) -> Vec<u64> {
    let mut sorted: Vec<[u8; 14]> = keys.to_vec();
    sorted.sort();
    let mut out = Vec::new();
    for k in sorted.iter().filter(|k| **k >= start) {
        match step(k) {
            ScanStep::Stop => break,
            ScanStep::Skip => continue,
            ScanStep::Take(t) => out.push(t),
        }
    }
    out
}

#[test]
fn scan_for_mac_takes_the_device_rows_in_range() {
    let keys = [
        frame_key(1_000_000, &MAC_A),
        frame_key(2_000_000, &MAC_B),
        frame_key(2_500_000, &MAC_A),
        frame_key(3_000_000, &MAC_A),
        frame_key(4_000_000, &MAC_B),
        frame_key(5_000_000, &MAC_A),
    ];
    let got = run(&keys, frame_key(2_100_000, &MAC_A), |k| frame_row_step_for_mac(k, &MAC_A, 3_000_000));
    assert_eq!(got, vec![2, 3]);
}

#[test]
fn total_scan_takes_all_rows_in_range() {
    let keys = [
        frame_key(1_000_000, &MAC_A),
        frame_key(2_000_000, &MAC_B),
        frame_key(2_500_000, &MAC_A),
        frame_key(4_000_000, &MAC_B),
    ];
    let got = run(&keys, total_start_key(2_900_000), |k| frame_row_step_total(k, 4_100_000));
    assert_eq!(got, vec![2, 2, 4]);
}
