//! What the HTTP API answers: the response rows built from stored records.

use vstd::prelude::*;
use crate::records::{
    ApRecord, DeviceRecord, EventRecord, EventType, FrameCountRecord, clone_ssid, same_mac,
};
use crate::text::{hex_digit_char, mac_text, push_char};

verus! {

/// Optional time range of a query, in microseconds.
#[derive(Clone, Copy, Debug, PartialEq, Eq, Structural)]
pub struct TimeRangeQuery {
    pub from_us: Option<u64>,
    pub to_us: Option<u64>,
}

/// One access point as the API reports it.
#[derive(Clone, Debug, PartialEq, Eq)]
pub struct ApResponse {
    pub bssid: String,
    pub ssid: Option<String>,
    pub channel: u8,
    pub rssi: i8,
    pub mfpr: bool,
    pub mfpc: bool,
    pub first_seen: u64,
    pub last_seen: u64,
    /// Devices whose last BSSID is this access point.
    pub device_count: usize,
}

/// One client device as the API reports it.
#[derive(Clone, Debug, PartialEq, Eq)]
pub struct DeviceResponse {
    pub mac: String,
    pub last_bssid: String,
    pub is_randomized: bool,
    pub first_seen: u64,
    pub last_seen: u64,
}

/// Frame counts of one device in one second.
#[derive(Clone, Debug, PartialEq, Eq)]
pub struct TimeSeriesPoint {
    pub timestamp_sec: u64,
    pub mac: String,
    pub mgmt: u32,
    pub ctrl: u32,
    pub data: u32,
    pub total: u32,
}

/// Frames of all devices in one second.
#[derive(Clone, Copy, Debug, PartialEq, Eq, Structural)]
pub struct TotalSeriesPoint {
    pub timestamp_sec: u64,
    pub total: u32,
}

/// One association event as the API reports it.
#[derive(Clone, Debug, PartialEq, Eq)]
pub struct EventResponse {
    pub mac: String,
    pub bssid: String,
    pub event_type: String,
    pub timestamp: u64,
}

/// Connects and disconnects of one device.
#[derive(Clone, Debug, PartialEq, Eq)]
pub struct DeviceEventCounts {
    pub mac: String,
    pub connects: u32,
    pub disconnects: u32,
}

/// Text of a MAC address: `aa:bb:cc:dd:ee:ff`, lower-case hexadecimal.
pub fn mac_to_string(mac: &[u8; 6]) -> (s: String)
    ensures
        s@ == mac_text(mac@),
{
    let mut s = String::new();
    let mut i: usize = 0;
    while i < 6
        invariant
            0 <= i <= 6,
            mac@.len() == 6,
            s@.len() == (if i == 0 { 0 } else { 3 * i - 1 }),
            forall|k: int| 0 <= k < s@.len() ==> s@[k] == mac_text(mac@)[k],
        decreases 6 - i,
    {
        let b = mac[i];
        assert((b >> 4u8) < 16 && (b & 15u8) < 16) by (bit_vector);
        if i > 0 {
            push_char(&mut s, ':');
            assert((3 * i - 1) % 3 == 2);
        }
        let ghost base = s@.len();
        assert(base == 3 * i);
        assert((3 * i) % 3 == 0 && (3 * i) / 3 == i);
        assert((3 * i + 1) % 3 == 1 && (3 * i + 1) / 3 == i);
        push_char(&mut s, hex_digit_char(b >> 4u8));
        push_char(&mut s, hex_digit_char(b & 15u8));
        i = i + 1;
    }
    assert(s@ =~= mac_text(mac@));
    s
}

/// Name of an event type.
pub open spec fn event_type_name(t: EventType) -> Seq<char> {
    match t {
        EventType::Assoc => seq!['a', 's', 's', 'o', 'c'],
        EventType::Reassoc => seq!['r', 'e', 'a', 's', 's', 'o', 'c'],
        EventType::Disassoc => seq!['d', 'i', 's', 'a', 's', 's', 'o', 'c'],
        EventType::Deauth => seq!['d', 'e', 'a', 'u', 't', 'h'],
    }
}

/// Name of the type of an event: `assoc`, `reassoc`, `disassoc` or `deauth`.
pub fn event_type_str(e: &EventRecord) -> (s: String)
    ensures
        s@ == event_type_name(e.event_type),
{
    match e.event_type {
        EventType::Assoc => {
            let s = String::from_str("assoc");
            proof {
                reveal_strlit("assoc");
            }
            assert(s@ =~= event_type_name(e.event_type));
            s
        },
        EventType::Reassoc => {
            let s = String::from_str("reassoc");
            proof {
                reveal_strlit("reassoc");
            }
            assert(s@ =~= event_type_name(e.event_type));
            s
        },
        EventType::Disassoc => {
            let s = String::from_str("disassoc");
            proof {
                reveal_strlit("disassoc");
            }
            assert(s@ =~= event_type_name(e.event_type));
            s
        },
        EventType::Deauth => {
            let s = String::from_str("deauth");
            proof {
                reveal_strlit("deauth");
            }
            assert(s@ =~= event_type_name(e.event_type));
            s
        },
    }
}

/// The range a query asks for: from the beginning of time and up to the end
/// of time where a bound is left out.
pub fn default_time_range(q: &TimeRangeQuery) -> (r: (u64, u64))
    ensures
        r.0 == (match q.from_us {
            Some(f) => f,
            None => 0,
        }),
        r.1 == (match q.to_us {
            Some(t) => t,
            None => u64::MAX,
        }),
{
    let to = match q.to_us {
        Some(t) => t,
        None => u64::MAX,
    };
    let from = match q.from_us {
        Some(f) => f,
        None => 0,
    };
    (from, to)
}

/// Number of devices whose last BSSID is `bssid`.
pub open spec fn devices_on(devices: Seq<DeviceRecord>, bssid: Seq<u8>) -> nat
    decreases devices.len(),
{
    if devices.len() == 0 {
        0
    } else {
        devices_on(devices.drop_last(), bssid) + if devices.last().last_bssid@ == bssid {
            1nat
        } else {
            0nat
        }
    }
}

/// Counts the devices whose last BSSID is `bssid`.
pub fn count_devices_on(devices: &Vec<DeviceRecord>, bssid: &[u8; 6]) -> (n: usize)
    ensures
        n == devices_on(devices@, bssid@),
        n == devices@.filter(|d: DeviceRecord| d.last_bssid@ == bssid@).len(),
{
    let mut n: usize = 0;
    let mut i: usize = 0;
    while i < devices.len()
        invariant
            0 <= i <= devices.len(),
            n == devices_on(devices@.take(i as int), bssid@),
            n <= i,
        decreases devices.len() - i,
    {
        assert(devices@.take(i as int + 1).drop_last() =~= devices@.take(i as int));
        if same_mac(&devices[i].last_bssid, bssid) {
            n = n + 1;
        }
        i = i + 1;
    }
    assert(devices@.take(i as int) =~= devices@);
    proof {
        law_devices_on_counts_equal_bssids(devices@, bssid@);
        let b = bssid@;
        assert((|d: DeviceRecord| d.last_bssid@ == b) =~= (|d: DeviceRecord| d.last_bssid@ == bssid@));
    }
    n
}

/// A device counts for an access point exactly when its last BSSID equals the
/// access point's BSSID in all bytes: the count is the number of such
/// devices, so a device whose last BSSID differs in any byte adds nothing,
/// and one whose last BSSID is equal adds one.
pub proof fn law_devices_on_counts_equal_bssids(devices: Seq<DeviceRecord>, bssid: Seq<u8>)
    ensures
        devices_on(devices, bssid) == devices.filter(|d: DeviceRecord| d.last_bssid@ == bssid).len(),
        forall|d: DeviceRecord|
            #[trigger] devices_on(devices.push(d), bssid) == devices_on(devices, bssid) + (if d.last_bssid@
                == bssid {
                1int
            } else {
                0int
            }),
    decreases devices.len(),
{
    let pred = |d: DeviceRecord| d.last_bssid@ == bssid;
    reveal_with_fuel(Seq::<_>::filter, 1);
    if devices.len() > 0 {
        law_devices_on_counts_equal_bssids(devices.drop_last(), bssid);
    }
    assert forall|d: DeviceRecord|
        #[trigger] devices_on(devices.push(d), bssid) == devices_on(devices, bssid) + (if d.last_bssid@
            == bssid {
            1int
        } else {
            0int
        }) by {
        assert(devices.push(d).drop_last() =~= devices);
    }
}

/// The response row of an access point.
pub open spec fn ap_response_of(r: ApResponse, ap: ApRecord, devices: Seq<DeviceRecord>) -> bool {
    &&& r.bssid@ == mac_text(ap.bssid@)
    &&& r.ssid == ap.ssid
    &&& r.channel == ap.channel
    &&& r.rssi == ap.rssi
    &&& r.mfpr == ap.mfpr
    &&& r.mfpc == ap.mfpc
    &&& r.first_seen == ap.first_seen
    &&& r.last_seen == ap.last_seen
    &&& r.device_count == devices_on(devices, ap.bssid@)
}

/// One response row per access point, in order, each with the number of
/// devices last seen on it.
pub fn ap_responses(aps: &Vec<ApRecord>, devices: &Vec<DeviceRecord>) -> (r: Vec<ApResponse>)
    ensures
        r.len() == aps.len(),
        forall|i: int| 0 <= i < aps.len() ==> ap_response_of(#[trigger] r@[i], aps@[i], devices@),
{
    let mut out: Vec<ApResponse> = Vec::new();
    let mut i: usize = 0;
    while i < aps.len()
        invariant
            0 <= i <= aps.len(),
            out.len() == i,
            forall|k: int| 0 <= k < i ==> ap_response_of(#[trigger] out@[k], aps@[k], devices@),
        decreases aps.len() - i,
    {
        let ap = &aps[i];
        let device_count = count_devices_on(devices, &ap.bssid);
        out.push(
            ApResponse {
                bssid: mac_to_string(&ap.bssid),
                ssid: clone_ssid(&ap.ssid),
                channel: ap.channel,
                rssi: ap.rssi,
                mfpr: ap.mfpr,
                mfpc: ap.mfpc,
                first_seen: ap.first_seen,
                last_seen: ap.last_seen,
                device_count,
            },
        );
        i = i + 1;
    }
    out
}

/// The response row of a device.
pub open spec fn device_response_of(r: DeviceResponse, d: DeviceRecord) -> bool {
    &&& r.mac@ == mac_text(d.mac@)
    &&& r.last_bssid@ == mac_text(d.last_bssid@)
    &&& r.is_randomized == d.is_randomized
    &&& r.first_seen == d.first_seen
    &&& r.last_seen == d.last_seen
}

/// One response row per device, in order.
pub fn device_responses(devices: &Vec<DeviceRecord>) -> (r: Vec<DeviceResponse>)
    ensures
        r.len() == devices.len(),
        forall|i: int| 0 <= i < devices.len() ==> device_response_of(#[trigger] r@[i], devices@[i]),
{
    let mut out: Vec<DeviceResponse> = Vec::new();
    let mut i: usize = 0;
    while i < devices.len()
        invariant
            0 <= i <= devices.len(),
            out.len() == i,
            forall|k: int| 0 <= k < i ==> device_response_of(#[trigger] out@[k], devices@[k]),
        decreases devices.len() - i,
    {
        let d = &devices[i];
        out.push(
            DeviceResponse {
                mac: mac_to_string(&d.mac),
                last_bssid: mac_to_string(&d.last_bssid),
                is_randomized: d.is_randomized,
                first_seen: d.first_seen,
                last_seen: d.last_seen,
            },
        );
        i = i + 1;
    }
    out
}

/// One point per second of the all-device series, in order.
pub fn total_points(pairs: &Vec<(u64, u32)>) -> (r: Vec<TotalSeriesPoint>)
    ensures
        r.len() == pairs.len(),
        forall|i: int|
            0 <= i < pairs.len() ==> (#[trigger] r@[i]).timestamp_sec == pairs@[i].0 && r@[i].total
                == pairs@[i].1,
{
    let mut out: Vec<TotalSeriesPoint> = Vec::new();
    let mut i: usize = 0;
    while i < pairs.len()
        invariant
            0 <= i <= pairs.len(),
            out.len() == i,
            forall|k: int|
                0 <= k < i ==> (#[trigger] out@[k]).timestamp_sec == pairs@[k].0 && out@[k].total
                    == pairs@[k].1,
        decreases pairs.len() - i,
    {
        let (sec, total) = pairs[i];
        out.push(TotalSeriesPoint { timestamp_sec: sec, total });
        i = i + 1;
    }
    out
}

/// All frames of a record: management, control and data.
pub open spec fn record_total(r: FrameCountRecord) -> int {
    r.mgmt + r.ctrl + r.data
}

/// The point of one device in one second.
pub open spec fn series_point_of(p: TimeSeriesPoint, mac: Seq<u8>, sec: u64, rec: FrameCountRecord) -> bool {
    &&& p.timestamp_sec == sec
    &&& p.mac@ == mac_text(mac)
    &&& p.mgmt == rec.mgmt
    &&& p.ctrl == rec.ctrl
    &&& p.data == rec.data
    &&& p.total == record_total(rec)
}

/// The per-second points of one device, in order, each with its total.
/// `None` where a total passes `u32::MAX`.
pub fn device_series_points(mac: &[u8; 6], counts: &Vec<(u64, FrameCountRecord)>) -> (r: Option<
    Vec<TimeSeriesPoint>,
>)
    ensures
        r is None <==> exists|i: int|
            0 <= i < counts.len() && record_total(#[trigger] counts@[i].1) > u32::MAX,
        r matches Some(v) ==> {
            &&& v.len() == counts.len()
            &&& forall|i: int|
                0 <= i < counts.len() ==> series_point_of(
                    #[trigger] v@[i],
                    mac@,
                    counts@[i].0,
                    counts@[i].1,
                )
        },
{
    let mut out: Vec<TimeSeriesPoint> = Vec::new();
    let mut i: usize = 0;
    while i < counts.len()
        invariant
            0 <= i <= counts.len(),
            out.len() == i,
            forall|k: int| 0 <= k < i ==> record_total(#[trigger] counts@[k].1) <= u32::MAX,
            forall|k: int|
                0 <= k < i ==> series_point_of(#[trigger] out@[k], mac@, counts@[k].0, counts@[k].1),
        decreases counts.len() - i,
    {
        let (sec, rec) = counts[i];
        let total = match rec.mgmt.checked_add(rec.ctrl) {
            Some(t) => t.checked_add(rec.data),
            None => None,
        };
        match total {
            Some(total) => {
                out.push(
                    TimeSeriesPoint {
                        timestamp_sec: sec,
                        mac: mac_to_string(mac),
                        mgmt: rec.mgmt,
                        ctrl: rec.ctrl,
                        data: rec.data,
                        total,
                    },
                );
            },
            None => {
                assert(record_total(counts@[i as int].1) > u32::MAX);
                return None;
            },
        }
        i = i + 1;
    }
    Some(out)
}

/// The response row of an event.
pub open spec fn event_response_of(r: EventResponse, e: EventRecord) -> bool {
    &&& r.mac@ == mac_text(e.mac@)
    &&& r.bssid@ == mac_text(e.bssid@)
    &&& r.event_type@ == event_type_name(e.event_type)
    &&& r.timestamp == e.timestamp
}

/// One response row per event, in order.
pub fn event_responses(events: &Vec<EventRecord>) -> (r: Vec<EventResponse>)
    ensures
        r.len() == events.len(),
        forall|i: int| 0 <= i < events.len() ==> event_response_of(#[trigger] r@[i], events@[i]),
{
    let mut out: Vec<EventResponse> = Vec::new();
    let mut i: usize = 0;
    while i < events.len()
        invariant
            0 <= i <= events.len(),
            out.len() == i,
            forall|k: int| 0 <= k < i ==> event_response_of(#[trigger] out@[k], events@[k]),
        decreases events.len() - i,
    {
        let e = &events[i];
        out.push(
            EventResponse {
                mac: mac_to_string(&e.mac),
                bssid: mac_to_string(&e.bssid),
                event_type: event_type_str(e),
                timestamp: e.timestamp,
            },
        );
        i = i + 1;
    }
    out
}

} // verus!
