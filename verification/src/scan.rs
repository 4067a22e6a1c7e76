//! Decisions of the range scans over the frame-count and event stores.
//!
//! The store hands out its rows in ascending key order, starting at the first
//! key not below a start key. For each row the caller asks the step function
//! of its scan whether to take the row, to pass over it, or to stop; the laws
//! at the end of this file say which rows a whole scan takes.

use vstd::prelude::*;
use crate::keys::{
    KEY_LEN, MICROS_PER_SEC, be_bytes, be_value, frame_key, frame_key_spec, key_has_mac, key_mac,
    key_time, event_key_spec, lemma_be_canonical, lemma_be_order, lemma_be_roundtrip, read_key_time, second_of,
};
use crate::order::{lex_lt, lex_lt_from, lemma_lex_concat, lemma_lex_irreflexive};

verus! {

/// What a scan does with the row under the cursor.
#[derive(Clone, Copy, Debug, PartialEq, Eq, Structural)]
pub enum ScanStep {
    /// Leave the scan: no later row can qualify.
    Stop,
    /// Pass over this row and look at the next.
    Skip,
    /// Take this row; the value is the time stored in its key.
    Take(u64),
}

/// Step of the per-device frame-count scan: stop at a malformed key, pass
/// over other devices, stop once the second lies past `to_us`.
pub open spec fn frame_for_mac_step(key: Seq<u8>, mac: Seq<u8>, to_us: u64) -> ScanStep {
    if key.len() < KEY_LEN {
        ScanStep::Stop
    } else if key_mac(key) != mac {
        ScanStep::Skip
    } else if key_time(key) * MICROS_PER_SEC > to_us {
        ScanStep::Stop
    } else {
        ScanStep::Take(key_time(key))
    }
}

/// Step of the all-device frame-count scan: stop at a malformed key or once
/// the second lies past `to_sec`.
pub open spec fn total_step(key: Seq<u8>, to_sec: u64) -> ScanStep {
    if key.len() < KEY_LEN {
        ScanStep::Stop
    } else if key_time(key) > to_sec {
        ScanStep::Stop
    } else {
        ScanStep::Take(key_time(key))
    }
}

/// Step of the per-device event scan: stop at a malformed key, pass over
/// other devices, stop once the timestamp lies past `to_us`.
pub open spec fn event_for_mac_step(key: Seq<u8>, mac: Seq<u8>, to_us: u64) -> ScanStep {
    if key.len() < KEY_LEN {
        ScanStep::Stop
    } else if key_mac(key) != mac {
        ScanStep::Skip
    } else if key_time(key) > to_us {
        ScanStep::Stop
    } else {
        ScanStep::Take(key_time(key))
    }
}

/// Decides on one row of the per-device frame-count scan.
pub fn frame_row_step_for_mac(key: &[u8], mac: &[u8; 6], to_us: u64) -> (r: ScanStep)
    ensures
        r == frame_for_mac_step(key@, mac@, to_us),
{
    if key.len() < KEY_LEN {
        return ScanStep::Stop;
    }
    if !key_has_mac(key, mac) {
        return ScanStep::Skip;
    }
    let sec = read_key_time(key);
    let limit = to_us / MICROS_PER_SEC;
    proof {
        lemma_scaled_past(sec, to_us);
    }
    if sec > limit {
        ScanStep::Stop
    } else {
        ScanStep::Take(sec)
    }
}

/// Start key of the all-device frame-count scan: the second of `from_us`
/// followed by the all-zero MAC.
pub fn total_start_key(from_us: u64) -> (key: [u8; 14])
    ensures
        key@ == frame_key_spec(from_us, seq![0u8, 0u8, 0u8, 0u8, 0u8, 0u8]),
{
    let zero: [u8; 6] = [0u8; 6];
    assert(zero@ =~= seq![0u8, 0u8, 0u8, 0u8, 0u8, 0u8]);
    frame_key(from_us, &zero)
}

/// Decides on one row of the all-device frame-count scan over
/// `[.., to_us]`; the last second taken is the one in which `to_us` falls.
pub fn frame_row_step_total(key: &[u8], to_us: u64) -> (r: ScanStep)
    ensures
        r == total_step(key@, second_of(to_us)),
{
    if key.len() < KEY_LEN {
        return ScanStep::Stop;
    }
    let sec = read_key_time(key);
    if sec > to_us / MICROS_PER_SEC {
        ScanStep::Stop
    } else {
        ScanStep::Take(sec)
    }
}

/// Decides on one row of the per-device event scan.
pub fn event_row_step_for_mac(key: &[u8], mac: &[u8; 6], to_us: u64) -> (r: ScanStep)
    ensures
        r == event_for_mac_step(key@, mac@, to_us),
{
    if key.len() < KEY_LEN {
        return ScanStep::Stop;
    }
    if !key_has_mac(key, mac) {
        return ScanStep::Skip;
    }
    let ts = read_key_time(key);
    if ts > to_us {
        ScanStep::Stop
    } else {
        ScanStep::Take(ts)
    }
}

proof fn lemma_scaled_past(sec: u64, to_us: u64)
    ensures
        (sec * MICROS_PER_SEC > to_us) == (sec > to_us / MICROS_PER_SEC),
{
    let q = to_us / MICROS_PER_SEC;
    assert(q * 1000000 <= to_us < q * 1000000 + 1000000) by (nonlinear_arith)
        requires
            q == to_us / 1000000,
    ;
    if sec > q {
        assert(sec * 1000000 >= (q + 1) * 1000000) by (nonlinear_arith)
            requires
                sec >= q + 1,
        ;
    } else {
        assert(sec * 1000000 <= q * 1000000) by (nonlinear_arith)
            requires
                sec <= q,
        ;
    }
}

// ---------------------------------------------------------------------------
// Whole scans over the rows the store hands out
// ---------------------------------------------------------------------------

/// The times that a scan takes from `keys`, given in store order, under the
/// step function `step`.
pub open spec fn scan_keys(keys: Seq<Seq<u8>>, step: spec_fn(Seq<u8>) -> ScanStep) -> Seq<u64>
    decreases keys.len(),
{
    if keys.len() == 0 {
        Seq::empty()
    } else {
        match step(keys[0]) {
            ScanStep::Stop => Seq::empty(),
            ScanStep::Skip => scan_keys(keys.drop_first(), step),
            ScanStep::Take(t) => seq![t] + scan_keys(keys.drop_first(), step),
        }
    }
}

/// The times in the keys of `keys` that satisfy `pred`, in order.
pub open spec fn times_where(keys: Seq<Seq<u8>>, pred: spec_fn(Seq<u8>) -> bool) -> Seq<u64>
    decreases keys.len(),
{
    if keys.len() == 0 {
        Seq::empty()
    } else if pred(keys[0]) {
        seq![key_time(keys[0])] + times_where(keys.drop_first(), pred)
    } else {
        times_where(keys.drop_first(), pred)
    }
}

/// Keys in strictly ascending store order.
pub open spec fn keys_ascending(keys: Seq<Seq<u8>>) -> bool {
    forall|i: int, j: int| 0 <= i < j < keys.len() ==> lex_lt(#[trigger] keys[i], #[trigger] keys[j])
}

/// Every key is a full 14-byte key.
pub open spec fn keys_well_formed(keys: Seq<Seq<u8>>) -> bool {
    forall|i: int| 0 <= i < keys.len() ==> (#[trigger] keys[i]).len() == KEY_LEN
}

/// What the store's cursor yields when positioned at `start`: the keys of
/// `all` that do not sort before `start`, in order.
pub open spec fn keys_from(all: Seq<Seq<u8>>, start: Seq<u8>, from: Seq<Seq<u8>>) -> bool {
    exists|p: int|
        0 <= p <= all.len() && from == all.skip(p) && (forall|i: int|
            0 <= i < p ==> lex_lt(#[trigger] all[i], start)) && (forall|i: int|
            p <= i < all.len() ==> !lex_lt(#[trigger] all[i], start))
}

/// A 14-byte key is the encoding of its time followed by its MAC.
proof fn lemma_key_split(k: Seq<u8>)
    requires
        k.len() == KEY_LEN,
    ensures
        k == be_bytes(key_time(k)) + key_mac(k),
{
    lemma_be_canonical(k.subrange(0, 8));
    assert(key_time(k) == be_value(k.subrange(0, 8)));
    assert(k =~= k.subrange(0, 8) + key_mac(k));
}

/// In store order, a later 14-byte key never holds an earlier time.
proof fn lemma_time_monotone(a: Seq<u8>, b: Seq<u8>)
    requires
        a.len() == KEY_LEN,
        b.len() == KEY_LEN,
        lex_lt(a, b),
    ensures
        key_time(a) <= key_time(b),
{
    lemma_key_split(a);
    lemma_key_split(b);
    lemma_lex_concat(be_bytes(key_time(a)), key_mac(a), be_bytes(key_time(b)), key_mac(b));
    lemma_be_order(key_time(a), key_time(b));
    if be_bytes(key_time(a)) == be_bytes(key_time(b)) {
        lemma_be_roundtrip(key_time(a));
        lemma_be_roundtrip(key_time(b));
    }
}

proof fn lemma_times_where_none(keys: Seq<Seq<u8>>, pred: spec_fn(Seq<u8>) -> bool)
    requires
        forall|i: int| 0 <= i < keys.len() ==> !pred(#[trigger] keys[i]),
    ensures
        times_where(keys, pred) == Seq::<u64>::empty(),
    decreases keys.len(),
{
    if keys.len() > 0 {
        assert(!pred(keys[0]));
        let rest = keys.drop_first();
        assert forall|i: int| 0 <= i < rest.len() implies !pred(#[trigger] rest[i]) by {
            assert(rest[i] == keys[i + 1]);
        }
        lemma_times_where_none(rest, pred);
    }
}

proof fn lemma_times_where_concat(a: Seq<Seq<u8>>, b: Seq<Seq<u8>>, pred: spec_fn(Seq<u8>) -> bool)
    ensures
        times_where(a + b, pred) == times_where(a, pred) + times_where(b, pred),
    decreases a.len(),
{
    if a.len() == 0 {
        assert(a + b =~= b);
    } else {
        assert((a + b).drop_first() =~= a.drop_first() + b);
        assert((a + b)[0] == a[0]);
        lemma_times_where_concat(a.drop_first(), b, pred);
    }
}

proof fn lemma_ascending_tail(keys: Seq<Seq<u8>>)
    requires
        keys.len() > 0,
        keys_ascending(keys),
        keys_well_formed(keys),
    ensures
        keys_ascending(keys.drop_first()),
        keys_well_formed(keys.drop_first()),
        forall|j: int|
            0 <= j < keys.drop_first().len() ==> key_time(keys[0]) <= key_time(
                #[trigger] keys.drop_first()[j],
            ),
{
    let rest = keys.drop_first();
    assert forall|i: int, j: int| 0 <= i < j < rest.len() implies lex_lt(
        #[trigger] rest[i],
        #[trigger] rest[j],
    ) by {
        assert(rest[i] == keys[i + 1] && rest[j] == keys[j + 1]);
    }
    assert forall|j: int| 0 <= j < rest.len() implies key_time(keys[0]) <= key_time(
        #[trigger] rest[j],
    ) by {
        assert(rest[j] == keys[j + 1]);
        assert(lex_lt(keys[0], keys[j + 1]));
        lemma_time_monotone(keys[0], keys[j + 1]);
    }
    assert forall|i: int| 0 <= i < rest.len() implies (#[trigger] rest[i]).len() == KEY_LEN by {
        assert(rest[i] == keys[i + 1]);
    }
}

/// A row of the per-device frame-count scan's window.
pub open spec fn in_mac_window(key: Seq<u8>, mac: Seq<u8>, from_sec: int, to_us: int) -> bool {
    key_mac(key) == mac && from_sec <= key_time(key) && key_time(key) * MICROS_PER_SEC <= to_us
}

/// Over keys in store order, the per-device frame-count scan takes exactly the
/// seconds of the rows of that device that lie at or before `to_us`.
pub proof fn lemma_frame_scan_for_mac(keys: Seq<Seq<u8>>, mac: Seq<u8>, to_us: u64)
    requires
        keys_ascending(keys),
        keys_well_formed(keys),
    ensures
        scan_keys(keys, |k: Seq<u8>| frame_for_mac_step(k, mac, to_us)) == times_where(
            keys,
            |k: Seq<u8>| in_mac_window(k, mac, 0, to_us as int),
        ),
    decreases keys.len(),
{
    let step = |k: Seq<u8>| frame_for_mac_step(k, mac, to_us);
    let pred = |k: Seq<u8>| in_mac_window(k, mac, 0, to_us as int);
    if keys.len() > 0 {
        let rest = keys.drop_first();
        lemma_ascending_tail(keys);
        lemma_frame_scan_for_mac(rest, mac, to_us);
        let k0 = keys[0];
        assert(k0.len() == KEY_LEN);
        if key_mac(k0) == mac && key_time(k0) * MICROS_PER_SEC > to_us {
            assert forall|i: int| 0 <= i < rest.len() implies !pred(#[trigger] rest[i]) by {
                assert(key_time(k0) <= key_time(rest[i]));
                assert(key_time(k0) * MICROS_PER_SEC <= key_time(rest[i]) * MICROS_PER_SEC)
                    by (nonlinear_arith)
                    requires
                        key_time(k0) <= key_time(rest[i]),
                ;
            }
            lemma_times_where_none(rest, pred);
        }
    }
}

/// Over keys in store order, the all-device scan takes exactly the seconds of
/// the rows at or before `to_sec`.
pub proof fn lemma_frame_scan_total(keys: Seq<Seq<u8>>, to_sec: u64)
    requires
        keys_ascending(keys),
        keys_well_formed(keys),
    ensures
        scan_keys(keys, |k: Seq<u8>| total_step(k, to_sec)) == times_where(
            keys,
            |k: Seq<u8>| key_time(k) <= to_sec,
        ),
    decreases keys.len(),
{
    let pred = |k: Seq<u8>| key_time(k) <= to_sec;
    if keys.len() > 0 {
        let rest = keys.drop_first();
        lemma_ascending_tail(keys);
        lemma_frame_scan_total(rest, to_sec);
        if key_time(keys[0]) > to_sec {
            assert forall|i: int| 0 <= i < rest.len() implies !pred(#[trigger] rest[i]) by {
                assert(key_time(keys[0]) <= key_time(rest[i]));
            }
            lemma_times_where_none(rest, pred);
        }
    }
}

/// Over keys in store order, the per-device event scan takes exactly the
/// timestamps of the rows of that device at or before `to_us`.
pub proof fn lemma_event_scan_for_mac(keys: Seq<Seq<u8>>, mac: Seq<u8>, to_us: u64)
    requires
        keys_ascending(keys),
        keys_well_formed(keys),
    ensures
        scan_keys(keys, |k: Seq<u8>| event_for_mac_step(k, mac, to_us)) == times_where(
            keys,
            |k: Seq<u8>| key_mac(k) == mac && key_time(k) <= to_us,
        ),
    decreases keys.len(),
{
    let pred = |k: Seq<u8>| key_mac(k) == mac && key_time(k) <= to_us;
    if keys.len() > 0 {
        let rest = keys.drop_first();
        lemma_ascending_tail(keys);
        lemma_event_scan_for_mac(rest, mac, to_us);
        let k0 = keys[0];
        if key_mac(k0) == mac && key_time(k0) > to_us {
            assert forall|i: int| 0 <= i < rest.len() implies !pred(#[trigger] rest[i]) by {
                assert(key_time(k0) <= key_time(rest[i]));
            }
            lemma_times_where_none(rest, pred);
        }
    }
}


// ---------------------------------------------------------------------------
// Where the cursor starts
// ---------------------------------------------------------------------------

/// A key of a device sorts at or after the frame start key of that device
/// exactly when its second is not before the second of `from_us`.
pub proof fn lemma_frame_start_for_mac(k: Seq<u8>, mac: Seq<u8>, from_us: u64)
    requires
        k.len() == KEY_LEN,
        key_mac(k) == mac,
    ensures
        !lex_lt(k, frame_key_spec(from_us, mac)) == (key_time(k) >= second_of(from_us)),
{
    lemma_key_split(k);
    let s = second_of(from_us);
    lemma_lex_concat(be_bytes(key_time(k)), mac, be_bytes(s), mac);
    lemma_be_order(key_time(k), s);
    lemma_lex_irreflexive(mac);
    if be_bytes(key_time(k)) == be_bytes(s) {
        lemma_be_roundtrip(key_time(k));
        lemma_be_roundtrip(s);
    }
}

/// A key of a device sorts at or after the event start key of that device
/// exactly when its timestamp is not before `from_us`.
pub proof fn lemma_event_start_for_mac(k: Seq<u8>, mac: Seq<u8>, from_us: u64)
    requires
        k.len() == KEY_LEN,
        key_mac(k) == mac,
    ensures
        !lex_lt(k, event_key_spec(from_us, mac)) == (key_time(k) >= from_us),
{
    lemma_key_split(k);
    lemma_lex_concat(be_bytes(key_time(k)), mac, be_bytes(from_us), mac);
    lemma_be_order(key_time(k), from_us);
    lemma_lex_irreflexive(mac);
    if be_bytes(key_time(k)) == be_bytes(from_us) {
        lemma_be_roundtrip(key_time(k));
        lemma_be_roundtrip(from_us);
    }
}

proof fn lemma_nothing_below_zero_mac(m: Seq<u8>)
    requires
        m.len() == 6,
    ensures
        !lex_lt(m, seq![0u8, 0u8, 0u8, 0u8, 0u8, 0u8]),
{
    reveal_with_fuel(lex_lt_from, 7);
}

/// Any key sorts at or after the start key of the all-device scan exactly
/// when its second is not before the second of `from_us`.
pub proof fn lemma_total_start(k: Seq<u8>, from_us: u64)
    requires
        k.len() == KEY_LEN,
    ensures
        !lex_lt(k, frame_key_spec(from_us, seq![0u8, 0u8, 0u8, 0u8, 0u8, 0u8])) == (key_time(k)
            >= second_of(from_us)),
{
    let z = seq![0u8, 0u8, 0u8, 0u8, 0u8, 0u8];
    lemma_key_split(k);
    let s = second_of(from_us);
    lemma_lex_concat(be_bytes(key_time(k)), key_mac(k), be_bytes(s), z);
    lemma_be_order(key_time(k), s);
    lemma_nothing_below_zero_mac(key_mac(k));
    if be_bytes(key_time(k)) == be_bytes(s) {
        lemma_be_roundtrip(key_time(k));
        lemma_be_roundtrip(s);
    }
}

proof fn lemma_times_where_agree(
    keys: Seq<Seq<u8>>,
    p1: spec_fn(Seq<u8>) -> bool,
    p2: spec_fn(Seq<u8>) -> bool,
)
    requires
        forall|i: int| 0 <= i < keys.len() ==> p1(#[trigger] keys[i]) == p2(keys[i]),
    ensures
        times_where(keys, p1) == times_where(keys, p2),
    decreases keys.len(),
{
    if keys.len() > 0 {
        let rest = keys.drop_first();
        assert(p1(keys[0]) == p2(keys[0]));
        assert forall|i: int| 0 <= i < rest.len() implies p1(#[trigger] rest[i]) == p2(rest[i]) by {
            assert(rest[i] == keys[i + 1]);
        }
        lemma_times_where_agree(rest, p1, p2);
    }
}

proof fn lemma_skip_ordered(keys: Seq<Seq<u8>>, p: int)
    requires
        0 <= p <= keys.len(),
        keys_ascending(keys),
        keys_well_formed(keys),
    ensures
        keys_ascending(keys.skip(p)),
        keys_well_formed(keys.skip(p)),
{
    let rest = keys.skip(p);
    assert forall|i: int, j: int| 0 <= i < j < rest.len() implies lex_lt(
        #[trigger] rest[i],
        #[trigger] rest[j],
    ) by {
        assert(rest[i] == keys[i + p] && rest[j] == keys[j + p]);
    }
    assert forall|i: int| 0 <= i < rest.len() implies (#[trigger] rest[i]).len() == KEY_LEN by {
        assert(rest[i] == keys[i + p]);
    }
}

/// Fetching the frame counts of one device over `[from_us, to_us]`: started
/// at `frame_key(from_us, mac)` over a store in key order, the scan takes
/// exactly the seconds of that device's rows from the second of `from_us` on
/// whose start lies at or before `to_us`, in time order.
pub proof fn lemma_frame_range_for_mac(
    all: Seq<Seq<u8>>,
    from: Seq<Seq<u8>>,
    mac: Seq<u8>,
    from_us: u64,
    to_us: u64,
)
    requires
        keys_ascending(all),
        keys_well_formed(all),
        keys_from(all, frame_key_spec(from_us, mac), from),
    ensures
        scan_keys(from, |k: Seq<u8>| frame_for_mac_step(k, mac, to_us)) == times_where(
            all,
            |k: Seq<u8>| in_mac_window(k, mac, second_of(from_us) as int, to_us as int),
        ),
{
    let start = frame_key_spec(from_us, mac);
    let p = choose|p: int|
        0 <= p <= all.len() && from == all.skip(p) && (forall|i: int|
            0 <= i < p ==> lex_lt(#[trigger] all[i], start)) && (forall|i: int|
            p <= i < all.len() ==> !lex_lt(#[trigger] all[i], start));
    let w0 = |k: Seq<u8>| in_mac_window(k, mac, 0, to_us as int);
    let wf = |k: Seq<u8>| in_mac_window(k, mac, second_of(from_us) as int, to_us as int);
    lemma_skip_ordered(all, p);
    lemma_frame_scan_for_mac(from, mac, to_us);
    let head = all.take(p);
    assert(all =~= head + from);
    lemma_times_where_concat(head, from, wf);
    assert forall|i: int| 0 <= i < head.len() implies !wf(#[trigger] head[i]) by {
        assert(head[i] == all[i]);
        if key_mac(all[i]) == mac {
            lemma_frame_start_for_mac(all[i], mac, from_us);
        }
    }
    lemma_times_where_none(head, wf);
    assert forall|i: int| 0 <= i < from.len() implies w0(#[trigger] from[i]) == wf(from[i]) by {
        assert(from[i] == all[i + p]);
        if key_mac(from[i]) == mac {
            lemma_frame_start_for_mac(from[i], mac, from_us);
        }
    }
    lemma_times_where_agree(from, w0, wf);
    assert(Seq::<u64>::empty() + times_where(from, wf) =~= times_where(from, wf));
}

/// Summing the frame counts of all devices over `[from_us, to_us]`: started
/// at the second of `from_us` over a store in key order, the scan takes
/// exactly the rows whose second lies from the second of `from_us` through
/// the second of `to_us`, in time order.
pub proof fn lemma_frame_range_total(
    all: Seq<Seq<u8>>,
    from: Seq<Seq<u8>>,
    from_us: u64,
    to_us: u64,
)
    requires
        keys_ascending(all),
        keys_well_formed(all),
        keys_from(all, frame_key_spec(from_us, seq![0u8, 0u8, 0u8, 0u8, 0u8, 0u8]), from),
    ensures
        scan_keys(from, |k: Seq<u8>| total_step(k, second_of(to_us))) == times_where(
            all,
            |k: Seq<u8>| second_of(from_us) <= key_time(k) <= second_of(to_us),
        ),
{
    let start = frame_key_spec(from_us, seq![0u8, 0u8, 0u8, 0u8, 0u8, 0u8]);
    let p = choose|p: int|
        0 <= p <= all.len() && from == all.skip(p) && (forall|i: int|
            0 <= i < p ==> lex_lt(#[trigger] all[i], start)) && (forall|i: int|
            p <= i < all.len() ==> !lex_lt(#[trigger] all[i], start));
    let w0 = |k: Seq<u8>| key_time(k) <= second_of(to_us);
    let wf = |k: Seq<u8>| second_of(from_us) <= key_time(k) <= second_of(to_us);
    lemma_skip_ordered(all, p);
    lemma_frame_scan_total(from, second_of(to_us));
    let head = all.take(p);
    assert(all =~= head + from);
    lemma_times_where_concat(head, from, wf);
    assert forall|i: int| 0 <= i < head.len() implies !wf(#[trigger] head[i]) by {
        assert(head[i] == all[i]);
        lemma_total_start(all[i], from_us);
    }
    lemma_times_where_none(head, wf);
    assert forall|i: int| 0 <= i < from.len() implies w0(#[trigger] from[i]) == wf(from[i]) by {
        assert(from[i] == all[i + p]);
        lemma_total_start(from[i], from_us);
    }
    lemma_times_where_agree(from, w0, wf);
    assert(Seq::<u64>::empty() + times_where(from, wf) =~= times_where(from, wf));
}

/// Fetching the events of one device over `[from_us, to_us]`: started at
/// `event_key(from_us, mac)` over a store in key order, the scan takes exactly
/// the timestamps of that device's events within the range, in time order.
pub proof fn lemma_event_range_for_mac(
    all: Seq<Seq<u8>>,
    from: Seq<Seq<u8>>,
    mac: Seq<u8>,
    from_us: u64,
    to_us: u64,
)
    requires
        keys_ascending(all),
        keys_well_formed(all),
        keys_from(all, event_key_spec(from_us, mac), from),
    ensures
        scan_keys(from, |k: Seq<u8>| event_for_mac_step(k, mac, to_us)) == times_where(
            all,
            |k: Seq<u8>| key_mac(k) == mac && from_us <= key_time(k) <= to_us,
        ),
{
    let start = event_key_spec(from_us, mac);
    let p = choose|p: int|
        0 <= p <= all.len() && from == all.skip(p) && (forall|i: int|
            0 <= i < p ==> lex_lt(#[trigger] all[i], start)) && (forall|i: int|
            p <= i < all.len() ==> !lex_lt(#[trigger] all[i], start));
    let w0 = |k: Seq<u8>| key_mac(k) == mac && key_time(k) <= to_us;
    let wf = |k: Seq<u8>| key_mac(k) == mac && from_us <= key_time(k) <= to_us;
    lemma_skip_ordered(all, p);
    lemma_event_scan_for_mac(from, mac, to_us);
    let head = all.take(p);
    assert(all =~= head + from);
    lemma_times_where_concat(head, from, wf);
    assert forall|i: int| 0 <= i < head.len() implies !wf(#[trigger] head[i]) by {
        assert(head[i] == all[i]);
        if key_mac(all[i]) == mac {
            lemma_event_start_for_mac(all[i], mac, from_us);
        }
    }
    lemma_times_where_none(head, wf);
    assert forall|i: int| 0 <= i < from.len() implies w0(#[trigger] from[i]) == wf(from[i]) by {
        assert(from[i] == all[i + p]);
        if key_mac(from[i]) == mac {
            lemma_event_start_for_mac(from[i], mac, from_us);
        }
    }
    lemma_times_where_agree(from, w0, wf);
    assert(Seq::<u64>::empty() + times_where(from, wf) =~= times_where(from, wf));
}

} // verus!
