//! The stored records, and the decisions that the capture callback takes on
//! each frame: which access point, device, frame-count and event rows it
//! writes.

use vstd::prelude::*;

verus! {

/// An access point, stored under its BSSID.
#[derive(Clone, Debug, PartialEq, Eq)]
pub struct ApRecord {
    pub bssid: [u8; 6],
    /// Filled in later from beacon information elements.
    pub ssid: Option<String>,
    pub channel: u8,
    /// RSSI of the last frame seen.
    pub rssi: i8,
    /// Protected management frames required.
    pub mfpr: bool,
    /// Protected management frames capable.
    pub mfpc: bool,
    /// Timestamp (microseconds) of the first frame seen.
    pub first_seen: u64,
    pub last_seen: u64,
}

/// A client device, stored under its MAC address.
#[derive(Clone, Copy, Debug, PartialEq, Eq)]
pub struct DeviceRecord {
    pub mac: [u8; 6],
    pub last_bssid: [u8; 6],
    pub is_randomized: bool,
    pub first_seen: u64,
    pub last_seen: u64,
}

/// Frames of one device within one second, by frame type. Stored under the
/// key `second (u64 big-endian) ++ mac`; readers aggregate over time ranges.
#[derive(Clone, Copy, Debug, PartialEq, Eq, Structural)]
pub struct FrameCountRecord {
    pub mgmt: u32,
    pub ctrl: u32,
    pub data: u32,
}

impl Default for FrameCountRecord {
    fn default() -> (r: Self)
        ensures
            r.mgmt == 0 && r.ctrl == 0 && r.data == 0,
    {
        FrameCountRecord { mgmt: 0, ctrl: 0, data: 0 }
    }
}

/// Association-related management events.
#[derive(Clone, Copy, Debug, PartialEq, Eq, Structural)]
pub enum EventType {
    Assoc,
    Reassoc,
    Disassoc,
    Deauth,
}

/// One association event, stored under `timestamp (u64 big-endian) ++ mac`.
#[derive(Clone, Copy, Debug, PartialEq, Eq)]
pub struct EventRecord {
    pub mac: [u8; 6],
    pub bssid: [u8; 6],
    pub event_type: EventType,
    pub timestamp: u64,
}

/// What the capture layer reports of one received 802.11 frame.
#[derive(Clone, Copy, Debug, PartialEq, Eq)]
pub struct FrameInfo {
    pub timestamp_us: u64,
    /// 0 = management, 1 = control, 2 = data.
    pub frame_type: u8,
    pub frame_subtype: u8,
    pub bssid: [u8; 6],
    pub src: [u8; 6],
    pub channel: u8,
    pub rssi: i8,
    /// Non-zero when the source address is locally administered (randomized).
    pub is_randomized: u8,
}

/// Management beacon (subtype 8) or probe response (subtype 5): the frames
/// from which an access point is recorded.
pub open spec fn is_ap_frame_spec(f: FrameInfo) -> bool {
    f.frame_type == 0 && (f.frame_subtype == 8 || f.frame_subtype == 5)
}

/// Whether the frame announces an access point.
pub fn is_ap_frame(f: &FrameInfo) -> (r: bool)
    ensures
        r == is_ap_frame_spec(*f),
        r <==> (f.frame_type == 0u8 && (f.frame_subtype == 5u8 || f.frame_subtype == 8u8)),
{
    f.frame_type == 0 && (f.frame_subtype == 8 || f.frame_subtype == 5)
}

/// Neither the all-zero nor the broadcast address.
pub open spec fn is_station_mac_spec(mac: Seq<u8>) -> bool {
    mac != seq![0u8, 0u8, 0u8, 0u8, 0u8, 0u8] && mac != seq![
        0xffu8,
        0xffu8,
        0xffu8,
        0xffu8,
        0xffu8,
        0xffu8,
    ]
}

/// Whether `mac` can be the address of a device (not zero, not broadcast).
pub fn is_station_mac(mac: &[u8; 6]) -> (r: bool)
    ensures
        r == is_station_mac_spec(mac@),
        r <==> (exists|j: int| 0 <= j < 6 && mac[j] != 0u8) && (exists|j: int|
            0 <= j < 6 && mac[j] != 0xffu8),
{
    let mut all_zero = true;
    let mut all_ones = true;
    let mut i: usize = 0;
    while i < 6
        invariant
            0 <= i <= 6,
            mac@.len() == 6,
            all_zero == (forall|j: int| 0 <= j < i ==> mac@[j] == 0u8),
            all_ones == (forall|j: int| 0 <= j < i ==> mac@[j] == 0xffu8),
        decreases 6 - i,
    {
        if mac[i] != 0 {
            all_zero = false;
        }
        if mac[i] != 0xff {
            all_ones = false;
        }
        i = i + 1;
    }
    proof {
        let z = seq![0u8, 0u8, 0u8, 0u8, 0u8, 0u8];
        let o = seq![0xffu8, 0xffu8, 0xffu8, 0xffu8, 0xffu8, 0xffu8];
        if all_zero {
            assert(mac@ =~= z);
        } else {
            let j = choose|j: int| 0 <= j < 6 && mac@[j] != 0u8;
            assert(mac@[j] != z[j]);
        }
        if all_ones {
            assert(mac@ =~= o);
        } else {
            let j = choose|j: int| 0 <= j < 6 && mac@[j] != 0xffu8;
            assert(mac@[j] != o[j]);
        }
    }
    !all_zero && !all_ones
}

pub(crate) fn clone_ssid(ssid: &Option<String>) -> (r: Option<String>)
    ensures
        r == *ssid,
{
    match ssid {
        Some(s) => Some(s.clone()),
        None => None,
    }
}

/// The access-point row written for an AP frame: channel and RSSI from the
/// frame, SSID and first sighting kept from the stored row if there is one,
/// last sighting now.
pub fn ap_record_for_frame(f: &FrameInfo, existing: &Option<ApRecord>) -> (r: ApRecord)
    ensures
        r.bssid == f.bssid,
        r.ssid == (match existing {
            Some(e) => e.ssid,
            None => None,
        }),
        r.channel == f.channel,
        r.rssi == f.rssi,
        !r.mfpr,
        !r.mfpc,
        r.first_seen == (match existing {
            Some(e) => e.first_seen,
            None => f.timestamp_us,
        }),
        r.last_seen == f.timestamp_us,
{
    let now = f.timestamp_us;
    let (ssid, first_seen) = match existing {
        Some(e) => (clone_ssid(&e.ssid), e.first_seen),
        None => (None, now),
    };
    ApRecord {
        bssid: f.bssid,
        ssid,
        channel: f.channel,
        rssi: f.rssi,
        mfpr: false,
        mfpc: false,
        first_seen,
        last_seen: now,
    }
}

/// The device row written for a frame from a device: the BSSID and the
/// randomization flag from the frame, first sighting kept from the stored row
/// if there is one, last sighting now.
pub fn device_record_for_frame(f: &FrameInfo, existing: &Option<DeviceRecord>) -> (r:
    DeviceRecord)
    ensures
        r.mac == f.src,
        r.last_bssid == f.bssid,
        r.is_randomized == (f.is_randomized != 0),
        r.first_seen == (match existing {
            Some(e) => e.first_seen,
            None => f.timestamp_us,
        }),
        r.last_seen == f.timestamp_us,
{
    let now = f.timestamp_us;
    let first_seen = match existing {
        Some(e) => e.first_seen,
        None => now,
    };
    DeviceRecord {
        mac: f.src,
        last_bssid: f.bssid,
        is_randomized: f.is_randomized != 0,
        first_seen,
        last_seen: now,
    }
}

/// The event that a management frame subtype signals, if any.
pub open spec fn event_type_spec(frame_type: u8, frame_subtype: u8) -> Option<EventType> {
    if frame_type != 0 {
        None
    } else if frame_subtype == 0 {
        Some(EventType::Assoc)
    } else if frame_subtype == 2 {
        Some(EventType::Reassoc)
    } else if frame_subtype == 10 {
        Some(EventType::Disassoc)
    } else if frame_subtype == 12 {
        Some(EventType::Deauth)
    } else {
        None
    }
}

/// Classifies a frame by type and subtype: association request (0, 0),
/// reassociation request (0, 2), disassociation (0, 10), deauthentication
/// (0, 12).
pub fn event_type_for(frame_type: u8, frame_subtype: u8) -> (r: Option<EventType>)
    ensures
        r == event_type_spec(frame_type, frame_subtype),
        r is Some <==> frame_type == 0u8 && (frame_subtype == 0u8 || frame_subtype == 2u8
            || frame_subtype == 10u8 || frame_subtype == 12u8),
        r == Some(EventType::Assoc) <==> frame_type == 0u8 && frame_subtype == 0u8,
        r == Some(EventType::Reassoc) <==> frame_type == 0u8 && frame_subtype == 2u8,
        r == Some(EventType::Disassoc) <==> frame_type == 0u8 && frame_subtype == 10u8,
        r == Some(EventType::Deauth) <==> frame_type == 0u8 && frame_subtype == 12u8,
{
    if frame_type != 0 {
        return None;
    }
    match frame_subtype {
        0 => Some(EventType::Assoc),
        2 => Some(EventType::Reassoc),
        10 => Some(EventType::Disassoc),
        12 => Some(EventType::Deauth),
        _ => None,
    }
}

/// The event row that a frame gives: one for an association-related frame
/// sent by a device, none otherwise.
pub fn event_for_frame(f: &FrameInfo) -> (r: Option<EventRecord>)
    ensures
        r == (match event_type_spec(f.frame_type, f.frame_subtype) {
            Some(t) => if is_station_mac_spec(f.src@) {
                Some(EventRecord { mac: f.src, bssid: f.bssid, event_type: t, timestamp: f.timestamp_us })
            } else {
                None
            },
            None => None,
        }),
{
    match event_type_for(f.frame_type, f.frame_subtype) {
        Some(t) => {
            if is_station_mac(&f.src) {
                Some(
                    EventRecord {
                        mac: f.src,
                        bssid: f.bssid,
                        event_type: t,
                        timestamp: f.timestamp_us,
                    },
                )
            } else {
                None
            }
        },
        None => None,
    }
}

/// Whether one more frame of `frame_type` fits in the counter it goes to.
pub open spec fn count_fits(rec: FrameCountRecord, frame_type: u8) -> bool {
    &&& frame_type == 0 ==> rec.mgmt < u32::MAX
    &&& frame_type == 1 ==> rec.ctrl < u32::MAX
    &&& frame_type == 2 ==> rec.data < u32::MAX
}

/// The counts after one more frame of `frame_type`: management (0), control
/// (1) and data (2) frames raise their counter by one, other types change
/// nothing. `None` where the counter would pass `u32::MAX`.
pub fn count_frame(rec: &FrameCountRecord, frame_type: u8) -> (r: Option<FrameCountRecord>)
    ensures
        r is None <==> !count_fits(*rec, frame_type),
        r matches Some(n) ==> {
            &&& n.mgmt == rec.mgmt + (if frame_type == 0 { 1int } else { 0 })
            &&& n.ctrl == rec.ctrl + (if frame_type == 1 { 1int } else { 0 })
            &&& n.data == rec.data + (if frame_type == 2 { 1int } else { 0 })
        },
{
    let mut n = *rec;
    match frame_type {
        0 => {
            if n.mgmt == u32::MAX {
                return None;
            }
            n.mgmt = n.mgmt + 1;
        },
        1 => {
            if n.ctrl == u32::MAX {
                return None;
            }
            n.ctrl = n.ctrl + 1;
        },
        2 => {
            if n.data == u32::MAX {
                return None;
            }
            n.data = n.data + 1;
        },
        _ => {},
    }
    Some(n)
}

/// Whether two MAC addresses are equal.
pub fn same_mac(a: &[u8; 6], b: &[u8; 6]) -> (r: bool)
    ensures
        r == (a@ == b@),
{
    let mut i: usize = 0;
    while i < 6
        invariant
            0 <= i <= 6,
            a@.len() == 6,
            b@.len() == 6,
            forall|j: int| 0 <= j < i ==> a@[j] == b@[j],
        decreases 6 - i,
    {
        if a[i] != b[i] {
            return false;
        }
        i = i + 1;
    }
    assert(a@ =~= b@);
    true
}

// ---------------------------------------------------------------------------
// Laws of the capture decisions
// ---------------------------------------------------------------------------

/// Access points are recorded from exactly two kinds of frame: management
/// (type 0) beacons (subtype 8) and probe responses (subtype 5). Any other
/// frame, such as an association request (0, 0) or a deauthentication
/// (0, 12), leaves the access-point store alone.
pub proof fn law_ap_frames(f: FrameInfo)
    ensures
        is_ap_frame_spec(f) <==> (f.frame_type == 0u8 && (f.frame_subtype == 5u8 || f.frame_subtype
            == 8u8)),
{
}

/// Every address but the all-zero and the broadcast address belongs to a
/// station: one byte other than 0x00 and one byte other than 0xff suffice.
pub proof fn law_station_macs(mac: Seq<u8>)
    requires
        mac.len() == 6,
    ensures
        is_station_mac_spec(mac) <==> (exists|j: int| 0 <= j < 6 && mac[j] != 0u8) && (exists|j: int|
            0 <= j < 6 && mac[j] != 0xffu8),
{
    let z = seq![0u8, 0u8, 0u8, 0u8, 0u8, 0u8];
    let o = seq![0xffu8, 0xffu8, 0xffu8, 0xffu8, 0xffu8, 0xffu8];
    if exists|j: int| 0 <= j < 6 && mac[j] != 0u8 {
        let j = choose|j: int| 0 <= j < 6 && mac[j] != 0u8;
        assert(mac[j] != z[j]);
    } else {
        assert(mac =~= z);
    }
    if exists|j: int| 0 <= j < 6 && mac[j] != 0xffu8 {
        let j = choose|j: int| 0 <= j < 6 && mac[j] != 0xffu8;
        assert(mac[j] != o[j]);
    } else {
        assert(mac =~= o);
    }
}

/// Exactly four management subtypes give an event: association request (0)
/// an Assoc, reassociation request (2) a Reassoc, disassociation (10) a
/// Disassoc and deauthentication (12) a Deauth. Every other type and subtype,
/// association responses (0, 1) among them, gives none.
pub proof fn law_event_types(frame_type: u8, frame_subtype: u8)
    ensures
        event_type_spec(0u8, 0u8) == Some(EventType::Assoc),
        event_type_spec(0u8, 2u8) == Some(EventType::Reassoc),
        event_type_spec(0u8, 10u8) == Some(EventType::Disassoc),
        event_type_spec(0u8, 12u8) == Some(EventType::Deauth),
        (frame_type != 0u8 || (frame_subtype != 0u8 && frame_subtype != 2u8 && frame_subtype != 10u8
            && frame_subtype != 12u8)) ==> event_type_spec(frame_type, frame_subtype) is None,
{
}

/// Events are recorded only for frames from stations, and with the type the
/// subtype gives: no event for an unlisted subtype or from the zero or
/// broadcast address, whatever else the frame holds.
pub proof fn law_frame_events(f: FrameInfo)
    ensures
        (f.frame_type != 0u8 || (f.frame_subtype != 0u8 && f.frame_subtype != 2u8 && f.frame_subtype
            != 10u8 && f.frame_subtype != 12u8)) ==> event_type_spec(f.frame_type, f.frame_subtype)
            is None,
        f.src@ == seq![0u8, 0u8, 0u8, 0u8, 0u8, 0u8] ==> !is_station_mac_spec(f.src@),
        f.src@ == seq![0xffu8, 0xffu8, 0xffu8, 0xffu8, 0xffu8, 0xffu8] ==> !is_station_mac_spec(
            f.src@,
        ),
{
}

} // verus!
