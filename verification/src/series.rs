//! Aggregation: frame totals per second over all devices, and connects and
//! disconnects per device, each sorted by its key.

use vstd::prelude::*;
use crate::api::{DeviceEventCounts, mac_to_string, record_total};
use crate::order::{lex_lt, lex_lt_from};
use crate::records::{EventRecord, EventType, FrameCountRecord};
use crate::text::{lemma_mac_text_order, mac_text, text_lt};

verus! {

/// Sum of the first counters of the entries with key `key`.
pub open spec fn sum_first(items: Seq<(u64, u32, u32)>, key: u64) -> int
    decreases items.len(),
{
    if items.len() == 0 {
        0
    } else {
        sum_first(items.drop_last(), key) + if items.last().0 == key {
            items.last().1 as int
        } else {
            0
        }
    }
}

/// Sum of the second counters of the entries with key `key`.
pub open spec fn sum_second(items: Seq<(u64, u32, u32)>, key: u64) -> int
    decreases items.len(),
{
    if items.len() == 0 {
        0
    } else {
        sum_second(items.drop_last(), key) + if items.last().0 == key {
            items.last().2 as int
        } else {
            0
        }
    }
}

/// Every key's sums fit in a `u32`.
pub open spec fn sums_fit(items: Seq<(u64, u32, u32)>) -> bool {
    forall|m: int|
        0 <= m < items.len() ==> sum_first(items, #[trigger] items[m].0) <= u32::MAX
            && sum_second(items, items[m].0) <= u32::MAX
}

/// Keys in strictly ascending order.
pub open spec fn keys_ascending(v: Seq<(u64, u32, u32)>) -> bool {
    forall|a: int, b: int| 0 <= a < b < v.len() ==> (#[trigger] v[a]).0 < (#[trigger] v[b]).0
}

/// Some entry of `items` has key `key`.
pub open spec fn key_in(items: Seq<(u64, u32, u32)>, key: u64) -> bool {
    exists|m: int| 0 <= m < items.len() && items[m].0 == key
}

/// Every key of `v` is a key of `items`.
pub open spec fn keys_drawn_from(v: Seq<(u64, u32, u32)>, items: Seq<(u64, u32, u32)>) -> bool {
    forall|k: int| 0 <= k < v.len() ==> #[trigger] key_in(items, v[k].0)
}

/// Every entry of `v` holds the sums of its key over `items`.
pub open spec fn sums_agree(v: Seq<(u64, u32, u32)>, items: Seq<(u64, u32, u32)>) -> bool {
    forall|k: int|
        0 <= k < v.len() ==> (#[trigger] v[k]).1 == sum_first(items, v[k].0) && v[k].2
            == sum_second(items, v[k].0)
}

/// Every key of `items` has an entry in `v`.
pub open spec fn keys_covered(v: Seq<(u64, u32, u32)>, items: Seq<(u64, u32, u32)>) -> bool {
    forall|m: int| 0 <= m < items.len() ==> #[trigger] key_in(v, items[m].0)
}

/// `v` holds one entry per key of `items`, in strictly ascending key order,
/// with the sums of that key.
#[verifier::opaque]
pub open spec fn is_sum_by_key(v: Seq<(u64, u32, u32)>, items: Seq<(u64, u32, u32)>) -> bool {
    &&& keys_ascending(v)
    &&& keys_drawn_from(v, items)
    &&& sums_agree(v, items)
    &&& keys_covered(v, items)
}

proof fn lemma_sums_grow(items: Seq<(u64, u32, u32)>, a: int, key: u64)
    requires
        0 <= a <= items.len(),
    ensures
        sum_first(items.take(a), key) <= sum_first(items, key),
        sum_second(items.take(a), key) <= sum_second(items, key),
    decreases items.len() - a,
{
    if a == items.len() {
        assert(items.take(a) =~= items);
    } else {
        lemma_sums_grow(items, a + 1, key);
        assert(items.take(a + 1).drop_last() =~= items.take(a));
    }
}

proof fn lemma_drawn_push(v: Seq<(u64, u32, u32)>, pre: Seq<(u64, u32, u32)>, item: (u64, u32, u32))
    requires
        keys_drawn_from(v, pre),
    ensures
        keys_drawn_from(v, pre.push(item)),
{
    let post = pre.push(item);
    assert forall|k: int| 0 <= k < v.len() implies #[trigger] key_in(post, v[k].0) by {
        assert(key_in(pre, v[k].0));
        let m = choose|m: int| 0 <= m < pre.len() && pre[m].0 == v[k].0;
        assert(post[m] == pre[m]);
    }
}

/// Adding an item to the counters of a key already present.
proof fn lemma_sum_step_update(
    prev: Seq<(u64, u32, u32)>,
    pre: Seq<(u64, u32, u32)>,
    item: (u64, u32, u32),
    jj: int,
    next: Seq<(u64, u32, u32)>,
)
    requires
        is_sum_by_key(prev, pre),
        0 <= jj < prev.len(),
        prev[jj].0 == item.0,
        prev[jj].1 + item.1 <= u32::MAX,
        prev[jj].2 + item.2 <= u32::MAX,
        next == prev.update(jj, (item.0, (prev[jj].1 + item.1) as u32, (prev[jj].2 + item.2) as u32)),
    ensures
        is_sum_by_key(next, pre.push(item)),
{
    reveal(is_sum_by_key);
    let post = pre.push(item);
    assert(post.drop_last() =~= pre);
    assert forall|k: int| 0 <= k < next.len() implies next[k].0 == prev[k].0 by {}
    assert(keys_ascending(next)) by {
        assert forall|a: int, b: int| 0 <= a < b < next.len() implies (#[trigger] next[a]).0 < (
        #[trigger] next[b]).0 by {
            assert(prev[a].0 < prev[b].0);
        }
    }
    assert(keys_drawn_from(next, post)) by {
        assert forall|k: int| 0 <= k < next.len() implies #[trigger] key_in(pre, next[k].0) by {
            assert(key_in(pre, prev[k].0));
        }
        lemma_drawn_push(next, pre, item);
    }
    assert(sums_agree(next, post)) by {
        assert forall|k: int| 0 <= k < next.len() implies (#[trigger] next[k]).1 == sum_first(
            post,
            next[k].0,
        ) && next[k].2 == sum_second(post, next[k].0) by {
            if k != jj {
                assert(prev[k].0 != prev[jj].0) by {
                    if k < jj {
                        assert(prev[k].0 < prev[jj].0);
                    } else {
                        assert(prev[jj].0 < prev[k].0);
                    }
                }
            }
        }
    }
    assert(keys_covered(next, post)) by {
        assert forall|m: int| 0 <= m < post.len() implies #[trigger] key_in(next, post[m].0) by {
            if m == pre.len() {
                assert(next[jj].0 == post[m].0);
            } else {
                assert(pre[m] == post[m]);
                assert(key_in(prev, pre[m].0));
                let k = choose|k: int| 0 <= k < prev.len() && prev[k].0 == pre[m].0;
                assert(next[k].0 == prev[k].0);
            }
        }
    }
}

/// Inserting the entry of a key not yet present at its place in key order.
proof fn lemma_sum_step_insert(
    prev: Seq<(u64, u32, u32)>,
    pre: Seq<(u64, u32, u32)>,
    item: (u64, u32, u32),
    jj: int,
    next: Seq<(u64, u32, u32)>,
)
    requires
        is_sum_by_key(prev, pre),
        0 <= jj <= prev.len(),
        forall|k: int| 0 <= k < jj ==> (#[trigger] prev[k]).0 < item.0,
        forall|k: int| jj <= k < prev.len() ==> (#[trigger] prev[k]).0 > item.0,
        next == prev.insert(jj, item),
    ensures
        is_sum_by_key(next, pre.push(item)),
{
    reveal(is_sum_by_key);
    let key = item.0;
    let post = pre.push(item);
    assert(post.drop_last() =~= pre);
    assert(next[jj] == item);
    assert forall|k: int| 0 <= k < next.len() && k != jj implies #[trigger] next[k] == prev[if k
        < jj {
        k
    } else {
        k - 1
    }] by {}
    assert forall|k: int| 0 <= k < prev.len() implies (#[trigger] prev[k]).0 != key by {}
    assert(!key_in(pre, key)) by {
        if key_in(pre, key) {
            let m = choose|m: int| 0 <= m < pre.len() && pre[m].0 == key;
            assert(key_in(prev, pre[m].0));
            let k = choose|k: int| 0 <= k < prev.len() && prev[k].0 == pre[m].0;
            assert(prev[k].0 != key);
        }
    }
    assert(sum_first(pre, key) == 0 && sum_second(pre, key) == 0) by {
        if sum_first(pre, key) != 0 || sum_second(pre, key) != 0 {
            lemma_present_if_summed(pre, key);
        }
    }
    assert(keys_ascending(next)) by {
        assert forall|a: int, b: int| 0 <= a < b < next.len() implies (#[trigger] next[a]).0 < (
        #[trigger] next[b]).0 by {
            if a != jj && b != jj {
                let pa = if a < jj { a } else { a - 1 };
                let pb = if b < jj { b } else { b - 1 };
                assert(prev[pa].0 < prev[pb].0);
            } else if a == jj {
                assert(next[b] == prev[b - 1]);
            } else {
                assert(next[a] == prev[a]);
            }
        }
    }
    assert(keys_drawn_from(next, post)) by {
        assert forall|k: int| 0 <= k < next.len() implies #[trigger] key_in(post, next[k].0) by {
            if k == jj {
                assert(post[pre.len() as int].0 == key);
            } else {
                let pk = if k < jj { k } else { k - 1 };
                assert(key_in(pre, prev[pk].0));
                let m = choose|m: int| 0 <= m < pre.len() && pre[m].0 == prev[pk].0;
                assert(post[m] == pre[m]);
            }
        }
    }
    assert(sums_agree(next, post)) by {
        assert forall|k: int| 0 <= k < next.len() implies (#[trigger] next[k]).1 == sum_first(
            post,
            next[k].0,
        ) && next[k].2 == sum_second(post, next[k].0) by {
            if k != jj {
                let pk = if k < jj { k } else { k - 1 };
                assert(prev[pk].0 != key);
            }
        }
    }
    assert(keys_covered(next, post)) by {
        assert forall|m: int| 0 <= m < post.len() implies #[trigger] key_in(next, post[m].0) by {
            if m == pre.len() {
                assert(next[jj].0 == post[m].0);
            } else {
                assert(pre[m] == post[m]);
                assert(key_in(prev, pre[m].0));
                let k = choose|k: int| 0 <= k < prev.len() && prev[k].0 == pre[m].0;
                if k < jj {
                    assert(next[k] == prev[k]);
                } else {
                    assert(next[k + 1] == prev[k]);
                }
            }
        }
    }
}

/// Sums the two counters of `items` per key. The result has one entry per
/// key, in ascending key order; `None` where a sum passes `u32::MAX`.
pub fn sum_by_key(items: &Vec<(u64, u32, u32)>) -> (r: Option<Vec<(u64, u32, u32)>>)
    ensures
        r is None <==> !sums_fit(items@),
        r matches Some(v) ==> is_sum_by_key(v@, items@),
{
    let mut out: Vec<(u64, u32, u32)> = Vec::new();
    let mut i: usize = 0;
    proof {
        reveal(is_sum_by_key);
        assert(items@.take(0) =~= Seq::<(u64, u32, u32)>::empty());
    }
    while i < items.len()
        invariant
            0 <= i <= items.len(),
            is_sum_by_key(out@, items@.take(i as int)),
        decreases items.len() - i,
    {
        let ghost prev = out@;
        let ghost pre = items@.take(i as int);
        assert(items@.take(i as int + 1) =~= pre.push(items@[i as int]));
        let item = items[i];
        let key = item.0;
        let mut j: usize = out.len();
        while j > 0 && out[j - 1].0 > key
            invariant
                j <= out.len(),
                out@ == prev,
                forall|k: int| j <= k < out.len() ==> (#[trigger] out@[k]).0 > key,
            decreases j,
        {
            j = j - 1;
        }
        if j > 0 && out[j - 1].0 == key {
            let (_, s1, s2) = out[j - 1];
            let n1 = s1.checked_add(item.1);
            let n2 = s2.checked_add(item.2);
            if n1.is_none() || n2.is_none() {
                proof {
                    reveal(is_sum_by_key);
                    assert(s1 == sum_first(pre, key) && s2 == sum_second(pre, key));
                    assert(pre.push(items@[i as int]).drop_last() =~= pre);
                    lemma_sums_grow(items@, i as int + 1, key);
                    assert(!sums_fit(items@)) by {
                        assert(items@[i as int].0 == key);
                    }
                }
                return None;
            }
            out.set(j - 1, (key, n1.unwrap(), n2.unwrap()));
            proof {
                lemma_sum_step_update(prev, pre, item, j - 1, out@);
            }
        } else {
            proof {
                reveal(is_sum_by_key);
                assert forall|k: int| 0 <= k < j implies (#[trigger] prev[k]).0 < key by {
                    if k < j - 1 {
                        assert(prev[k].0 < prev[j - 1].0);
                    }
                }
            }
            out.insert(j, item);
            proof {
                lemma_sum_step_insert(prev, pre, item, j as int, out@);
            }
        }
        i = i + 1;
    }
    proof {
        reveal(is_sum_by_key);
        assert(items@.take(i as int) =~= items@);
        assert forall|m: int| 0 <= m < items@.len() implies sum_first(
            items@,
            #[trigger] items@[m].0,
        ) <= u32::MAX && sum_second(items@, items@[m].0) <= u32::MAX by {
            assert(key_in(out@, items@[m].0));
            let k = choose|k: int| 0 <= k < out@.len() && out@[k].0 == items@[m].0;
        }
    }
    Some(out)
}

proof fn lemma_present_if_summed(items: Seq<(u64, u32, u32)>, key: u64)
    requires
        sum_first(items, key) != 0 || sum_second(items, key) != 0,
    ensures
        key_in(items, key),
    decreases items.len(),
{
    if items.len() > 0 {
        if items.last().0 != key {
            lemma_present_if_summed(items.drop_last(), key);
            let m = choose|m: int| 0 <= m < items.len() - 1 && items.drop_last()[m].0 == key;
            assert(items[m] == items.drop_last()[m]);
        } else {
            assert(items[items.len() - 1].0 == key);
        }
    }
}

// ---------------------------------------------------------------------------
// Frame totals per second
// ---------------------------------------------------------------------------

/// All frames of all rows of second `sec`.
pub open spec fn second_total(rows: Seq<(u64, FrameCountRecord)>, sec: u64) -> int
    decreases rows.len(),
{
    if rows.len() == 0 {
        0
    } else {
        second_total(rows.drop_last(), sec) + if rows.last().0 == sec {
            record_total(rows.last().1)
        } else {
            0
        }
    }
}

/// Some row is of second `sec`.
pub open spec fn second_in(rows: Seq<(u64, FrameCountRecord)>, sec: u64) -> bool {
    exists|m: int| 0 <= m < rows.len() && rows[m].0 == sec
}

/// Some entry of `v` is of second `sec`.
pub open spec fn second_listed(v: Seq<(u64, u32)>, sec: u64) -> bool {
    exists|k: int| 0 <= k < v.len() && v[k].0 == sec
}

/// The total of every second fits in a `u32`.
pub open spec fn second_totals_fit(rows: Seq<(u64, FrameCountRecord)>) -> bool {
    forall|m: int| 0 <= m < rows.len() ==> second_total(rows, #[trigger] rows[m].0) <= u32::MAX
}

/// `items` lists `rows` with each record replaced by its total.
spec fn items_of_rows(items: Seq<(u64, u32, u32)>, rows: Seq<(u64, FrameCountRecord)>) -> bool {
    &&& items.len() == rows.len()
    &&& forall|k: int|
        0 <= k < rows.len() ==> (#[trigger] items[k]).0 == rows[k].0 && items[k].1 == record_total(
            rows[k].1,
        ) && items[k].2 == 0
}

proof fn lemma_items_of_rows_sums(items: Seq<(u64, u32, u32)>, rows: Seq<(u64, FrameCountRecord)>, sec: u64)
    requires
        items_of_rows(items, rows),
    ensures
        sum_first(items, sec) == second_total(rows, sec),
        sum_second(items, sec) == 0,
    decreases rows.len(),
{
    if rows.len() > 0 {
        let (i2, r2) = (items.drop_last(), rows.drop_last());
        assert forall|k: int| 0 <= k < r2.len() implies (#[trigger] i2[k]).0 == r2[k].0 && i2[k].1
            == record_total(r2[k].1) && i2[k].2 == 0 by {
            assert(i2[k] == items[k] && r2[k] == rows[k]);
        }
        lemma_items_of_rows_sums(i2, r2, sec);
        assert(items.last() == items[items.len() - 1]);
    }
}

proof fn lemma_second_total_covers(rows: Seq<(u64, FrameCountRecord)>, m: int)
    requires
        0 <= m < rows.len(),
    ensures
        second_total(rows, rows[m].0) >= record_total(rows[m].1),
    decreases rows.len(),
{
    if m < rows.len() - 1 {
        assert(rows.drop_last()[m] == rows[m]);
        lemma_second_total_covers(rows.drop_last(), m);
    }
    lemma_second_total_nonneg(rows.drop_last(), rows[m].0);
}

proof fn lemma_second_total_nonneg(rows: Seq<(u64, FrameCountRecord)>, sec: u64)
    ensures
        second_total(rows, sec) >= 0,
    decreases rows.len(),
{
    if rows.len() > 0 {
        lemma_second_total_nonneg(rows.drop_last(), sec);
    }
}

/// Frame totals per second, summed over all rows (over all devices), in
/// ascending order of the second, one entry per second present. `None`
/// where the total of a second passes `u32::MAX`.
pub fn aggregate_totals(rows: &Vec<(u64, FrameCountRecord)>) -> (r: Option<Vec<(u64, u32)>>)
    ensures
        r is None <==> !second_totals_fit(rows@),
        r matches Some(v) ==> {
            &&& forall|a: int, b: int| 0 <= a < b < v.len() ==> (#[trigger] v@[a]).0 < (
            #[trigger] v@[b]).0
            &&& forall|k: int| 0 <= k < v.len() ==> #[trigger] second_in(rows@, v@[k].0)
            &&& forall|k: int| 0 <= k < v.len() ==> (#[trigger] v@[k]).1 == second_total(rows@, v@[k].0)
            &&& forall|m: int| 0 <= m < rows.len() ==> second_listed(v@, (#[trigger] rows@[m]).0)
        },
{
    let mut items: Vec<(u64, u32, u32)> = Vec::new();
    let mut i: usize = 0;
    while i < rows.len()
        invariant
            0 <= i <= rows.len(),
            items_of_rows(items@, rows@.take(i as int)),
        decreases rows.len() - i,
    {
        let (sec, rec) = rows[i];
        let total = match rec.mgmt.checked_add(rec.ctrl) {
            Some(t) => t.checked_add(rec.data),
            None => None,
        };
        match total {
            Some(t) => {
                items.push((sec, t, 0));
                proof {
                    let post = rows@.take(i as int + 1);
                    assert forall|k: int| 0 <= k < post.len() implies (#[trigger] items@[k]).0
                        == post[k].0 && items@[k].1 == record_total(post[k].1) && items@[k].2 == 0 by {
                        if k < i {
                            assert(post[k] == rows@.take(i as int)[k]);
                        }
                    }
                }
            },
            None => {
                proof {
                    lemma_second_total_covers(rows@, i as int);
                }
                return None;
            },
        }
        i = i + 1;
    }
    assert(rows@.take(i as int) =~= rows@);
    match sum_by_key(&items) {
        None => {
            proof {
                let m = choose|m: int|
                    0 <= m < items@.len() && !(sum_first(items@, #[trigger] items@[m].0)
                        <= u32::MAX && sum_second(items@, items@[m].0) <= u32::MAX);
                lemma_items_of_rows_sums(items@, rows@, items@[m].0);
                assert(!second_totals_fit(rows@)) by {
                    assert(rows@[m].0 == items@[m].0);
                }
            }
            None
        },
        Some(v) => {
            proof {
                reveal(is_sum_by_key);
            }
            let mut out: Vec<(u64, u32)> = Vec::new();
            let mut k: usize = 0;
            while k < v.len()
                invariant
                    0 <= k <= v.len(),
                    out.len() == k,
                    forall|a: int| 0 <= a < k ==> (#[trigger] out@[a]).0 == v@[a].0 && out@[a].1 == v@[a].1,
                decreases v.len() - k,
            {
                out.push((v[k].0, v[k].1));
                k = k + 1;
            }
            proof {
                assert forall|a: int, b: int| 0 <= a < b < out.len() implies (#[trigger] out@[a]).0
                    < (#[trigger] out@[b]).0 by {
                    assert(v@[a].0 < v@[b].0);
                }
                assert forall|k: int| 0 <= k < out.len() implies #[trigger] second_in(rows@, out@[k].0)
                    && out@[k].1 == second_total(rows@, out@[k].0) by {
                    assert(key_in(items@, v@[k].0));
                    let m = choose|m: int| 0 <= m < items@.len() && items@[m].0 == v@[k].0;
                    assert(rows@[m].0 == items@[m].0);
                    lemma_items_of_rows_sums(items@, rows@, v@[k].0);
                }
                assert forall|k: int| 0 <= k < out.len() implies (#[trigger] out@[k]).1 == second_total(
                    rows@,
                    out@[k].0,
                ) by {
                    assert(second_in(rows@, out@[k].0));
                }
                assert forall|m: int| 0 <= m < rows.len() implies second_listed(
                    out@,
                    (#[trigger] rows@[m]).0,
                ) by {
                    assert(items@[m].0 == rows@[m].0);
                    assert(key_in(v@, items@[m].0));
                    let k = choose|k: int| 0 <= k < v@.len() && v@[k].0 == items@[m].0;
                    assert(out@[k].0 == v@[k].0);
                }
                assert forall|m: int| 0 <= m < rows.len() implies second_total(
                    rows@,
                    #[trigger] rows@[m].0,
                ) <= u32::MAX by {
                    assert(items@[m].0 == rows@[m].0);
                    assert(key_in(v@, items@[m].0));
                    let k = choose|k: int| 0 <= k < v@.len() && v@[k].0 == items@[m].0;
                    lemma_items_of_rows_sums(items@, rows@, rows@[m].0);
                }
            }
            Some(out)
        },
    }
}

// ---------------------------------------------------------------------------
// Connects and disconnects per device
// ---------------------------------------------------------------------------

/// The 48-bit number whose big-endian bytes are the MAC address `m`.
pub open spec fn mac_value(m: Seq<u8>) -> u64 {
    ((m[0] as u64) << 40u64) | ((m[1] as u64) << 32u64) | ((m[2] as u64) << 24u64) | ((
    m[3] as u64) << 16u64) | ((m[4] as u64) << 8u64) | (m[5] as u64)
}

fn mac_to_value(mac: &[u8; 6]) -> (v: u64)
    ensures
        v == mac_value(mac@),
{
    ((mac[0] as u64) << 40u64) | ((mac[1] as u64) << 32u64) | ((mac[2] as u64) << 24u64) | ((
    mac[3] as u64) << 16u64) | ((mac[4] as u64) << 8u64) | (mac[5] as u64)
}

fn mac_from_value(v: u64) -> (mac: [u8; 6])
    ensures
        v < 0x1000000000000 ==> mac_value(mac@) == v,
{
    let mac: [u8; 6] = [
        (v >> 40u64) as u8,
        (v >> 32u64) as u8,
        (v >> 24u64) as u8,
        (v >> 16u64) as u8,
        (v >> 8u64) as u8,
        v as u8,
    ];
    proof {
        let (b0, b1, b2, b3, b4, b5) = (mac@[0], mac@[1], mac@[2], mac@[3], mac@[4], mac@[5]);
        assert(v < 0x1000000000000 ==> ((b0 as u64) << 40u64) | ((b1 as u64) << 32u64) | ((
        b2 as u64) << 24u64) | ((b3 as u64) << 16u64) | ((b4 as u64) << 8u64) | (b5 as u64) == v)
            by (bit_vector)
            requires
                b0 == (v >> 40u64) as u8 && b1 == (v >> 32u64) as u8 && b2 == (v >> 24u64) as u8
                    && b3 == (v >> 16u64) as u8 && b4 == (v >> 8u64) as u8 && b5 == v as u8,
        ;
    }
    mac
}

/// MAC addresses sort by their bytes as their numbers do; the number is
/// below 2^48 and determines the address.
pub proof fn lemma_mac_value(m1: Seq<u8>, m2: Seq<u8>)
    requires
        m1.len() == 6,
        m2.len() == 6,
    ensures
        lex_lt(m1, m2) == (mac_value(m1) < mac_value(m2)),
        mac_value(m1) == mac_value(m2) ==> m1 == m2,
        mac_value(m1) < 0x1000000000000,
{
    reveal_with_fuel(lex_lt_from, 7);
    let (x0, x1, x2, x3, x4, x5) = (m1[0], m1[1], m1[2], m1[3], m1[4], m1[5]);
    let (y0, y1, y2, y3, y4, y5) = (m2[0], m2[1], m2[2], m2[3], m2[4], m2[5]);
    let (vx, vy) = (mac_value(m1), mac_value(m2));
    assert((vx < vy) == (x0 < y0 || (x0 == y0 && (x1 < y1 || (x1 == y1 && (x2 < y2 || (x2 == y2
        && (x3 < y3 || (x3 == y3 && (x4 < y4 || (x4 == y4 && x5 < y5))))))))))
        && (vx == vy ==> x0 == y0 && x1 == y1 && x2 == y2 && x3 == y3 && x4 == y4 && x5 == y5)
        && vx < 0x1000000000000) by (bit_vector)
        requires
            vx == ((x0 as u64) << 40u64) | ((x1 as u64) << 32u64) | ((x2 as u64) << 24u64) | ((
            x3 as u64) << 16u64) | ((x4 as u64) << 8u64) | (x5 as u64),
            vy == ((y0 as u64) << 40u64) | ((y1 as u64) << 32u64) | ((y2 as u64) << 24u64) | ((
            y3 as u64) << 16u64) | ((y4 as u64) << 8u64) | (y5 as u64),
    ;
    if vx == vy {
        assert(m1 =~= m2);
    }
}

/// Association and reassociation count as connects; disassociation and
/// deauthentication as disconnects.
pub open spec fn is_connect(t: EventType) -> bool {
    t == EventType::Assoc || t == EventType::Reassoc
}

/// Connect events of the device `mac`.
pub open spec fn connects_of(events: Seq<EventRecord>, mac: Seq<u8>) -> int
    decreases events.len(),
{
    if events.len() == 0 {
        0
    } else {
        connects_of(events.drop_last(), mac) + if events.last().mac@ == mac && is_connect(
            events.last().event_type,
        ) {
            1int
        } else {
            0
        }
    }
}

/// Disconnect events of the device `mac`.
pub open spec fn disconnects_of(events: Seq<EventRecord>, mac: Seq<u8>) -> int
    decreases events.len(),
{
    if events.len() == 0 {
        0
    } else {
        disconnects_of(events.drop_last(), mac) + if events.last().mac@ == mac && !is_connect(
            events.last().event_type,
        ) {
            1int
        } else {
            0
        }
    }
}

/// Every device's counts fit in a `u32`.
pub open spec fn event_counts_fit(events: Seq<EventRecord>) -> bool {
    forall|m: int|
        0 <= m < events.len() ==> connects_of(events, (#[trigger] events[m]).mac@) <= u32::MAX
            && disconnects_of(events, events[m].mac@) <= u32::MAX
}

/// Some event is of the device whose address text is `text`.
pub open spec fn text_of_some_event(events: Seq<EventRecord>, text: Seq<char>) -> bool {
    exists|m: int| 0 <= m < events.len() && mac_text(events[m].mac@) == text
}

/// Some entry of `v` is of the device whose address text is `text`.
pub open spec fn text_listed(v: Seq<DeviceEventCounts>, text: Seq<char>) -> bool {
    exists|k: int| 0 <= k < v.len() && v[k].mac@ == text
}

spec fn entry_of_event(events: Seq<EventRecord>, key: u64, text: Seq<char>) -> bool {
    exists|m: int|
        0 <= m < events.len() && mac_value(events[m].mac@) == key && text == mac_text(
            events[m].mac@,
        )
}

spec fn items_of_events(items: Seq<(u64, u32, u32)>, events: Seq<EventRecord>) -> bool {
    &&& items.len() == events.len()
    &&& forall|k: int|
        0 <= k < events.len() ==> (#[trigger] items[k]).0 == mac_value(events[k].mac@) && items[k].1
            == (if is_connect(events[k].event_type) { 1int } else { 0 }) && items[k].2 == (if is_connect(
            events[k].event_type,
        ) {
            0int
        } else {
            1
        })
}

proof fn lemma_items_of_events_sums(items: Seq<(u64, u32, u32)>, events: Seq<EventRecord>, mac: Seq<u8>)
    requires
        items_of_events(items, events),
        mac.len() == 6,
        forall|k: int| 0 <= k < events.len() ==> (#[trigger] events[k]).mac@.len() == 6,
    ensures
        sum_first(items, mac_value(mac)) == connects_of(events, mac),
        sum_second(items, mac_value(mac)) == disconnects_of(events, mac),
    decreases events.len(),
{
    if events.len() > 0 {
        let (i2, e2) = (items.drop_last(), events.drop_last());
        assert forall|k: int| 0 <= k < e2.len() implies (#[trigger] i2[k]).0 == mac_value(
            e2[k].mac@,
        ) && i2[k].1 == (if is_connect(e2[k].event_type) { 1int } else { 0 }) && i2[k].2 == (
        if is_connect(e2[k].event_type) {
            0int
        } else {
            1
        }) by {
            assert(i2[k] == items[k] && e2[k] == events[k]);
        }
        assert forall|k: int| 0 <= k < e2.len() implies (#[trigger] e2[k]).mac@.len() == 6 by {
            assert(e2[k] == events[k]);
        }
        lemma_items_of_events_sums(i2, e2, mac);
        let last = events.len() - 1;
        assert(items.last() == items[last] && events.last() == events[last]);
        lemma_mac_value(events[last].mac@, mac);
    }
}

/// Connects and disconnects per device, one entry per device with events,
/// sorted by the text of the address, as the list view shows them (which
/// is the order of the address bytes). `None` where a count passes
/// `u32::MAX`.
pub fn event_counts(events: &Vec<EventRecord>) -> (r: Option<Vec<DeviceEventCounts>>)
    ensures
        r is None <==> !event_counts_fit(events@),
        r matches Some(v) ==> {
            &&& forall|a: int, b: int|
                0 <= a < b < v.len() ==> text_lt((#[trigger] v@[a]).mac@, (#[trigger] v@[b]).mac@)
            &&& forall|k: int| 0 <= k < v.len() ==> text_of_some_event(events@, (#[trigger] v@[k]).mac@)
            &&& forall|m: int|
                0 <= m < events.len() ==> text_listed(v@, mac_text((#[trigger] events@[m]).mac@))
            &&& forall|k: int, m: int|
                0 <= k < v.len() && 0 <= m < events.len() && (#[trigger] v@[k]).mac@ == mac_text(
                    (#[trigger] events@[m]).mac@,
                ) ==> v@[k].connects == connects_of(events@, events@[m].mac@)
                    && v@[k].disconnects == disconnects_of(events@, events@[m].mac@)
        },
{
    let mut items: Vec<(u64, u32, u32)> = Vec::new();
    let mut i: usize = 0;
    while i < events.len()
        invariant
            0 <= i <= events.len(),
            items_of_events(items@, events@.take(i as int)),
        decreases events.len() - i,
    {
        let e = &events[i];
        let key = mac_to_value(&e.mac);
        let item = match e.event_type {
            EventType::Assoc | EventType::Reassoc => (key, 1u32, 0u32),
            EventType::Disassoc | EventType::Deauth => (key, 0u32, 1u32),
        };
        items.push(item);
        proof {
            let post = events@.take(i as int + 1);
            assert forall|k: int| 0 <= k < post.len() implies (#[trigger] items@[k]).0 == mac_value(
                post[k].mac@,
            ) && items@[k].1 == (if is_connect(post[k].event_type) { 1int } else { 0 })
                && items@[k].2 == (if is_connect(post[k].event_type) {
                0int
            } else {
                1
            }) by {
                if k < i {
                    assert(post[k] == events@.take(i as int)[k]);
                }
            }
        }
        i = i + 1;
    }
    assert(events@.take(i as int) =~= events@);
    assert forall|k: int| 0 <= k < events@.len() implies (#[trigger] events@[k]).mac@.len() == 6 by {}
    match sum_by_key(&items) {
        None => {
            proof {
                let m = choose|m: int|
                    0 <= m < items@.len() && !(sum_first(items@, #[trigger] items@[m].0)
                        <= u32::MAX && sum_second(items@, items@[m].0) <= u32::MAX);
                lemma_items_of_events_sums(items@, events@, events@[m].mac@);
                assert(!event_counts_fit(events@)) by {
                    assert(items@[m].0 == mac_value(events@[m].mac@));
                }
            }
            None
        },
        Some(v) => {
            proof {
                reveal(is_sum_by_key);
            }
            let mut out: Vec<DeviceEventCounts> = Vec::new();
            let mut k: usize = 0;
            while k < v.len()
                invariant
                    0 <= k <= v.len(),
                    out.len() == k,
                    is_sum_by_key(v@, items@),
                    items_of_events(items@, events@),
                    forall|a: int| 0 <= a < events@.len() ==> (#[trigger] events@[a]).mac@.len() == 6,
                    forall|a: int|
                        0 <= a < k ==> entry_of_event(events@, v@[a].0, (#[trigger] out@[a]).mac@),
                    forall|a: int|
                        0 <= a < k ==> (#[trigger] out@[a]).connects == v@[a].1 && out@[a].disconnects
                            == v@[a].2,
                decreases v.len() - k,
            {
                reveal(is_sum_by_key);
                let (key, c, d) = v[k];
                assert(key_in(items@, key));
                let ghost m = choose|m: int| 0 <= m < items@.len() && items@[m].0 == key;
                proof {
                    lemma_mac_value(events@[m].mac@, events@[m].mac@);
                }
                let mac = mac_from_value(key);
                proof {
                    lemma_mac_value(mac@, events@[m].mac@);
                }
                let ghost prev = out@;
                out.push(DeviceEventCounts { mac: mac_to_string(&mac), connects: c, disconnects: d });
                proof {
                    assert(entry_of_event(events@, v@[k as int].0, out@[k as int].mac@));
                    assert forall|a: int| 0 <= a < k implies entry_of_event(
                        events@,
                        v@[a].0,
                        (#[trigger] out@[a]).mac@,
                    ) by {
                        assert(out@[a] == prev[a]);
                    }
                }
                k = k + 1;
            }
            proof {
                reveal(is_sum_by_key);
                assert forall|a: int, b: int| 0 <= a < b < out.len() implies text_lt(
                    (#[trigger] out@[a]).mac@,
                    (#[trigger] out@[b]).mac@,
                ) by {
                    assert(entry_of_event(events@, v@[a].0, out@[a].mac@));
                    assert(entry_of_event(events@, v@[a].0, out@[a].mac@));
                    assert(entry_of_event(events@, v@[a].0, out@[a].mac@));
                    assert(entry_of_event(events@, v@[a].0, out@[a].mac@));
                    let ma = choose|m: int|
                        0 <= m < events@.len() && mac_value(events@[m].mac@) == v@[a].0
                            && out@[a].mac@ == mac_text(events@[m].mac@);
                    assert(entry_of_event(events@, v@[b].0, out@[b].mac@));
                    let mb = choose|m: int|
                        0 <= m < events@.len() && mac_value(events@[m].mac@) == v@[b].0
                            && out@[b].mac@ == mac_text(events@[m].mac@);
                    assert(v@[a].0 < v@[b].0);
                    lemma_mac_value(events@[ma].mac@, events@[mb].mac@);
                    lemma_mac_text_order(events@[ma].mac@, events@[mb].mac@);
                }
                assert forall|a: int| 0 <= a < out.len() implies text_of_some_event(
                    events@,
                    (#[trigger] out@[a]).mac@,
                ) by {
                    assert(entry_of_event(events@, v@[a].0, out@[a].mac@));
                    assert(entry_of_event(events@, v@[a].0, out@[a].mac@));
                    assert(entry_of_event(events@, v@[a].0, out@[a].mac@));
                    assert(entry_of_event(events@, v@[a].0, out@[a].mac@));
                    let ma = choose|m: int|
                        0 <= m < events@.len() && mac_value(events@[m].mac@) == v@[a].0
                            && out@[a].mac@ == mac_text(events@[m].mac@);
                }
                assert forall|m: int| 0 <= m < events.len() implies text_listed(
                    out@,
                    mac_text((#[trigger] events@[m]).mac@),
                ) by {
                    assert(items@[m].0 == mac_value(events@[m].mac@));
                    assert(key_in(v@, items@[m].0));
                    let a = choose|a: int| 0 <= a < v@.len() && v@[a].0 == items@[m].0;
                    assert(entry_of_event(events@, v@[a].0, out@[a].mac@));
                    assert(entry_of_event(events@, v@[a].0, out@[a].mac@));
                    assert(entry_of_event(events@, v@[a].0, out@[a].mac@));
                    assert(entry_of_event(events@, v@[a].0, out@[a].mac@));
                    let ma = choose|m: int|
                        0 <= m < events@.len() && mac_value(events@[m].mac@) == v@[a].0
                            && out@[a].mac@ == mac_text(events@[m].mac@);
                    lemma_mac_value(events@[ma].mac@, events@[m].mac@);
                }
                assert forall|a: int, m: int|
                    0 <= a < out.len() && 0 <= m < events.len() && (#[trigger] out@[a]).mac@
                        == mac_text((#[trigger] events@[m]).mac@) implies out@[a].connects
                    == connects_of(events@, events@[m].mac@) && out@[a].disconnects
                    == disconnects_of(events@, events@[m].mac@) by {
                    assert(entry_of_event(events@, v@[a].0, out@[a].mac@));
                    assert(entry_of_event(events@, v@[a].0, out@[a].mac@));
                    assert(entry_of_event(events@, v@[a].0, out@[a].mac@));
                    assert(entry_of_event(events@, v@[a].0, out@[a].mac@));
                    let ma = choose|m: int|
                        0 <= m < events@.len() && mac_value(events@[m].mac@) == v@[a].0
                            && out@[a].mac@ == mac_text(events@[m].mac@);
                    crate::text::lemma_mac_text_injective(events@[ma].mac@, events@[m].mac@);
                    lemma_items_of_events_sums(items@, events@, events@[m].mac@);
                }
                assert forall|m: int| 0 <= m < events.len() implies connects_of(
                    events@,
                    (#[trigger] events@[m]).mac@,
                ) <= u32::MAX && disconnects_of(events@, events@[m].mac@) <= u32::MAX by {
                    assert(items@[m].0 == mac_value(events@[m].mac@));
                    assert(key_in(v@, items@[m].0));
                    let a = choose|a: int| 0 <= a < v@.len() && v@[a].0 == items@[m].0;
                    lemma_items_of_events_sums(items@, events@, events@[m].mac@);
                }
            }
            Some(out)
        },
    }
}

} // verus!
