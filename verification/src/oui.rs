//! The OUI vendor table: parsing Wireshark's `manuf` format and looking up
//! the vendor of a MAC address.
//!
//! Lines look like `00:00:00 \tXerox \tXerox Corporation`. Blank lines,
//! comments (`#`), lines without a tab and longer prefixes (`.../28`) are
//! passed over; of the others the short name (second column) is kept.

use vstd::prelude::*;
use std::collections::HashMap;
use crate::text::{string_of, text_chars};

verus! {

broadcast use vstd::std_specs::hash::group_hash_axioms;

/// Vendor short names by OUI, the OUI packed as `b0 * 65536 + b1 * 256 + b2`.
pub type OuiMap = HashMap<u32, String>;

/// The packed key of the OUI `b0:b1:b2`.
pub open spec fn oui_key(b0: u8, b1: u8, b2: u8) -> u32 {
    (b0 * 65536 + b1 * 256 + b2) as u32
}

/// The table as a map from packed OUI to the short name's characters.
pub open spec fn table_view(m: Map<u32, String>) -> Map<u32, Seq<char>> {
    m.map_values(|s: String| s@)
}

// ---------------------------------------------------------------------------
// Characters
// ---------------------------------------------------------------------------

/// Unicode `White_Space` (what `char::is_whitespace` and `str::trim` go by).
pub open spec fn is_ws(c: char) -> bool {
    let u = c as u32;
    (9 <= u <= 13) || u == 32 || u == 0x85 || u == 0xA0 || u == 0x1680 || (0x2000 <= u <= 0x200A)
        || u == 0x2028 || u == 0x2029 || u == 0x202F || u == 0x205F || u == 0x3000
}

fn is_ws_char(c: char) -> (r: bool)
    ensures
        r == is_ws(c),
{
    let u = c as u32;
    (9 <= u && u <= 13) || u == 32 || u == 0x85 || u == 0xA0 || u == 0x1680 || (0x2000 <= u && u
        <= 0x200A) || u == 0x2028 || u == 0x2029 || u == 0x202F || u == 0x205F || u == 0x3000
}

/// Number of leading whitespace characters.
pub open spec fn lead_ws(s: Seq<char>) -> int
    decreases s.len(),
{
    if s.len() > 0 && is_ws(s[0]) {
        1 + lead_ws(s.drop_first())
    } else {
        0
    }
}

/// Number of trailing whitespace characters.
pub open spec fn trail_ws(s: Seq<char>) -> int
    decreases s.len(),
{
    if s.len() > 0 && is_ws(s.last()) {
        1 + trail_ws(s.drop_last())
    } else {
        0
    }
}

proof fn lemma_ws_bounds(s: Seq<char>)
    ensures
        0 <= lead_ws(s) <= s.len(),
        0 <= trail_ws(s) <= s.len(),
    decreases s.len(),
{
    if s.len() > 0 {
        lemma_ws_bounds(s.drop_first());
        lemma_ws_bounds(s.drop_last());
    }
}

/// `s` without leading and trailing whitespace (`str::trim`).
pub open spec fn trim(s: Seq<char>) -> Seq<char> {
    let u = s.subrange(lead_ws(s), s.len() as int);
    u.subrange(0, u.len() - trail_ws(u))
}

/// Index of the first `c` in `s`, or the length of `s` where there is none.
pub open spec fn find_in(s: Seq<char>, c: char) -> int
    decreases s.len(),
{
    if s.len() == 0 {
        0
    } else if s[0] == c {
        0
    } else {
        1 + find_in(s.drop_first(), c)
    }
}

pub proof fn lemma_find_in(s: Seq<char>, c: char)
    ensures
        0 <= find_in(s, c) <= s.len(),
        find_in(s, c) < s.len() ==> s[find_in(s, c)] == c,
        forall|j: int| 0 <= j < find_in(s, c) ==> s[j] != c,
    decreases s.len(),
{
    if s.len() > 0 && s[0] != c {
        lemma_find_in(s.drop_first(), c);
        assert forall|j: int| 0 <= j < find_in(s, c) implies s[j] != c by {
            if j > 0 {
                assert(s[j] == s.drop_first()[j - 1]);
            }
        }
    }
}

/// Bounds `[a', b')` of the trimmed part of `t[a..b]`.
fn trim_range(t: &Vec<char>, a: usize, b: usize) -> (r: (usize, usize))
    requires
        a <= b <= t.len(),
    ensures
        a <= r.0 <= r.1 <= b,
        t@.subrange(r.0 as int, r.1 as int) == trim(t@.subrange(a as int, b as int)),
{
    let ghost s = t@.subrange(a as int, b as int);
    let mut i = a;
    while i < b && is_ws_char(t[i])
        invariant
            a <= i <= b <= t.len(),
            s == t@.subrange(a as int, b as int),
            lead_ws(s) == (i - a) + lead_ws(t@.subrange(i as int, b as int)),
        decreases b - i,
    {
        assert(t@.subrange(i as int, b as int).drop_first() =~= t@.subrange(i as int + 1, b as int));
        i = i + 1;
    }
    assert(lead_ws(s) == i - a);
    let ghost u = s.subrange(lead_ws(s), s.len() as int);
    assert(u =~= t@.subrange(i as int, b as int));
    let mut j = b;
    while j > i && is_ws_char(t[j - 1])
        invariant
            a <= i <= j <= b <= t.len(),
            u == t@.subrange(i as int, b as int),
            trail_ws(u) == (b - j) + trail_ws(t@.subrange(i as int, j as int)),
        decreases j - i,
    {
        assert(t@.subrange(i as int, j as int).drop_last() =~= t@.subrange(i as int, j as int - 1));
        j = j - 1;
    }
    assert(trail_ws(u) == b - j);
    assert(t@.subrange(i as int, j as int) =~= u.subrange(0, u.len() - trail_ws(u)));
    (i, j)
}

/// Index of the first `c` in `t[a..b]`, counted from the start of `t`, or `b`.
fn find_char(t: &Vec<char>, c: char, a: usize, b: usize) -> (r: usize)
    requires
        a <= b <= t.len(),
    ensures
        a <= r <= b,
        r == a + find_in(t@.subrange(a as int, b as int), c),
{
    let mut i = a;
    while i < b && t[i] != c
        invariant
            a <= i <= b <= t.len(),
            find_in(t@.subrange(a as int, b as int), c) == (i - a) + find_in(
                t@.subrange(i as int, b as int),
                c,
            ),
        decreases b - i,
    {
        assert(t@.subrange(i as int, b as int).drop_first() =~= t@.subrange(i as int + 1, b as int));
        i = i + 1;
    }
    i
}

// ---------------------------------------------------------------------------
// Hexadecimal bytes (as `u8::from_str_radix(s, 16)`)
// ---------------------------------------------------------------------------

/// A hexadecimal digit, either case.
pub open spec fn is_hex(c: char) -> bool {
    ('0' <= c && c <= '9') || ('a' <= c && c <= 'f') || ('A' <= c && c <= 'F')
}

/// Value of a hexadecimal digit.
pub open spec fn hex_val(c: char) -> int {
    if '0' <= c && c <= '9' {
        c as int - '0' as int
    } else if 'a' <= c && c <= 'f' {
        c as int - 'a' as int + 10
    } else {
        c as int - 'A' as int + 10
    }
}

/// Value of a string of hexadecimal digits.
pub open spec fn hex_number(s: Seq<char>) -> int
    decreases s.len(),
{
    if s.len() == 0 {
        0
    } else {
        hex_number(s.drop_last()) * 16 + hex_val(s.last())
    }
}

/// Every character is a hexadecimal digit.
pub open spec fn all_hex(s: Seq<char>) -> bool {
    forall|i: int| 0 <= i < s.len() ==> is_hex(#[trigger] s[i])
}

/// What `u8::from_str_radix(s, 16)` accepts: an optional `+` and then at
/// least one hexadecimal digit, of value at most 255.
pub open spec fn hex_byte(s: Seq<char>) -> Option<u8> {
    let d = if s.len() > 0 && s[0] == '+' {
        s.drop_first()
    } else {
        s
    };
    if d.len() == 0 || !all_hex(d) || hex_number(d) > 255 {
        None
    } else {
        Some(hex_number(d) as u8)
    }
}

proof fn lemma_hex_number_grows(s: Seq<char>, j: int)
    requires
        all_hex(s),
        0 <= j <= s.len(),
    ensures
        0 <= hex_number(s.take(j)) <= hex_number(s),
    decreases s.len() - j,
{
    if j == s.len() {
        assert(s.take(j) =~= s);
        lemma_hex_number_nonneg(s);
    } else {
        lemma_hex_number_grows(s, j + 1);
        assert(s.take(j + 1).drop_last() =~= s.take(j));
        assert(s.take(j + 1).last() == s[j]);
        assert(is_hex(s[j]));
        lemma_hex_number_nonneg(s.take(j));
    }
}

proof fn lemma_hex_number_nonneg(s: Seq<char>)
    requires
        all_hex(s),
    ensures
        hex_number(s) >= 0,
    decreases s.len(),
{
    if s.len() > 0 {
        assert(is_hex(s[s.len() - 1]));
        lemma_hex_number_nonneg(s.drop_last());
    }
}

fn parse_hex_byte(t: &Vec<char>, a: usize, b: usize) -> (r: Option<u8>)
    requires
        a <= b <= t.len(),
    ensures
        r == hex_byte(t@.subrange(a as int, b as int)),
{
    let ghost s = t@.subrange(a as int, b as int);
    let mut i = a;
    if i < b && t[i] == '+' {
        i = i + 1;
    }
    let start = i;
    let ghost d = t@.subrange(start as int, b as int);
    assert(d =~= (if s.len() > 0 && s[0] == '+' {
        s.drop_first()
    } else {
        s
    }));
    if start == b {
        return None;
    }
    let mut acc: u32 = 0;
    while i < b
        invariant
            a <= start <= i <= b <= t.len(),
            start < b,
            s == t@.subrange(a as int, b as int),
            d == t@.subrange(start as int, b as int),
            d == (if s.len() > 0 && s[0] == '+' {
                s.drop_first()
            } else {
                s
            }),
            d.take(i - start) == t@.subrange(start as int, i as int),
            all_hex(t@.subrange(start as int, i as int)),
            acc == hex_number(t@.subrange(start as int, i as int)),
            acc <= 255,
        decreases b - i,
    {
        let c = t[i];
        let ghost pre = t@.subrange(start as int, i as int);
        let ghost post = t@.subrange(start as int, i as int + 1);
        assert(post.drop_last() =~= pre);
        assert(post.last() == c);
        let v: u32 = if '0' <= c && c <= '9' {
            (c as u32) - ('0' as u32)
        } else if 'a' <= c && c <= 'f' {
            (c as u32) - ('a' as u32) + 10
        } else if 'A' <= c && c <= 'F' {
            (c as u32) - ('A' as u32) + 10
        } else {
            assert(!is_hex(d[i - start]));
            return None;
        };
        acc = acc * 16 + v;
        assert(d.take(i - start + 1) =~= post);
        assert forall|k: int| 0 <= k < post.len() implies is_hex(#[trigger] post[k]) by {
            if k < pre.len() {
                assert(post[k] == pre[k]);
            }
        }
        if acc > 255 {
            proof {
                if all_hex(d) {
                    lemma_hex_number_grows(d, i - start + 1);
                }
            }
            return None;
        }
        i = i + 1;
    }
    assert(d =~= t@.subrange(start as int, i as int));
    Some(acc as u8)
}

// ---------------------------------------------------------------------------
// Lines
// ---------------------------------------------------------------------------

/// The packed OUI of `aa:bb:cc`: exactly three parts separated by `:`,
/// each a hexadecimal byte.
pub open spec fn parse_oui(s: Seq<char>) -> Option<u32> {
    let c1 = find_in(s, ':');
    if c1 >= s.len() {
        None
    } else {
        let r1 = s.subrange(c1 + 1, s.len() as int);
        let c2 = find_in(r1, ':');
        if c2 >= r1.len() {
            None
        } else {
            let r2 = r1.subrange(c2 + 1, r1.len() as int);
            if find_in(r2, ':') < r2.len() {
                None
            } else {
                match (hex_byte(s.subrange(0, c1)), hex_byte(r1.subrange(0, c2)), hex_byte(r2)) {
                    (Some(x), Some(y), Some(z)) => Some(oui_key(x, y, z)),
                    _ => None,
                }
            }
        }
    }
}

/// The entry that one line of the table gives, if any: the trimmed line must
/// be non-empty, not a comment and have a tab; its first column, trimmed,
/// must be a plain `aa:bb:cc` OUI (no `/`); the entry's name is the second
/// column, trimmed.
pub open spec fn line_entry(line: Seq<char>) -> Option<(u32, Seq<char>)> {
    let t = trim(line);
    if t.len() == 0 || t[0] == '#' {
        None
    } else {
        let tab = find_in(t, '\t');
        if tab >= t.len() {
            None
        } else {
            let oui_str = trim(t.subrange(0, tab));
            let rest = t.subrange(tab + 1, t.len() as int);
            let short = trim(rest.subrange(0, find_in(rest, '\t')));
            if find_in(oui_str, '/') < oui_str.len() {
                None
            } else {
                match parse_oui(oui_str) {
                    Some(k) => Some((k, short)),
                    None => None,
                }
            }
        }
    }
}

/// `m` with the entry of `line`, if it gives one, added or overriding.
pub open spec fn add_line(m: Map<u32, Seq<char>>, line: Seq<char>) -> Map<u32, Seq<char>> {
    match line_entry(line) {
        Some((k, v)) => m.insert(k, v),
        None => m,
    }
}

/// Adding the lines of `text` to `m`, later lines overriding earlier ones.
/// Lines end at `\n`; a `\r` before it is whitespace and trimmed away.
pub open spec fn manuf_from(text: Seq<char>, m: Map<u32, Seq<char>>) -> Map<u32, Seq<char>>
    decreases text.len(),
{
    let e = find_in(text, '\n');
    let m2 = add_line(m, text.subrange(0, e));
    if e >= text.len() {
        m2
    } else {
        proof {
            lemma_find_in(text, '\n');
        }
        manuf_from(text.subrange(e + 1, text.len() as int), m2)
    }
}

/// The table that a `manuf` text describes.
pub open spec fn manuf_table(text: Seq<char>) -> Map<u32, Seq<char>> {
    manuf_from(text, Map::empty())
}

proof fn lemma_find_in_concat(p: Seq<char>, q: Seq<char>, c: char)
    ensures
        find_in(p + q, c) == if find_in(p, c) < p.len() {
            find_in(p, c)
        } else {
            p.len() + find_in(q, c)
        },
    decreases p.len(),
{
    if p.len() == 0 {
        assert(p + q =~= q);
    } else {
        assert((p + q).drop_first() =~= p.drop_first() + q);
        assert((p + q)[0] == p[0]);
        if p[0] != c {
            lemma_find_in_concat(p.drop_first(), q, c);
        }
    }
}

/// Reading a table in two parts: the lines before a line break, then the
/// lines after it, the second part overriding the first.
pub proof fn lemma_manuf_concat(a: Seq<char>, b: Seq<char>, m: Map<u32, Seq<char>>)
    ensures
        manuf_from(a + seq!['\n'] + b, m) == manuf_from(b, manuf_from(a, m)),
    decreases a.len(),
{
    let nb = seq!['\n'] + b;
    let t = a + nb;
    assert(a + seq!['\n'] + b =~= t);
    let e = find_in(a, '\n');
    lemma_find_in(a, '\n');
    lemma_find_in_concat(a, nb, '\n');
    if e >= a.len() {
        assert(nb[0] == '\n');
        assert(find_in(nb, '\n') == 0);
        assert(t.subrange(0, a.len() as int) =~= a);
        assert(a.subrange(0, e) =~= a);
        assert(t.subrange(a.len() as int + 1, t.len() as int) =~= b);
    } else {
        let rest = a.subrange(e + 1, a.len() as int);
        let m2 = add_line(m, a.subrange(0, e));
        lemma_manuf_concat(rest, b, m2);
        assert(t.subrange(0, e) =~= a.subrange(0, e));
        assert(t.subrange(e + 1, t.len() as int) =~= rest + seq!['\n'] + b);
    }
}

/// Later lines override earlier ones: after any table, a last line that
/// names an OUI maps that OUI to the line's short name.
pub proof fn lemma_last_line_wins(text: Seq<char>, line: Seq<char>)
    requires
        find_in(line, '\n') == line.len(),
        line_entry(line) is Some,
    ensures
        manuf_table(text + seq!['\n'] + line).contains_key(line_entry(line).unwrap().0),
        manuf_table(text + seq!['\n'] + line)[line_entry(line).unwrap().0] == line_entry(line).unwrap().1,
{
    lemma_manuf_concat(text, line, Map::empty());
    assert(line.subrange(0, line.len() as int) =~= line);
}

fn parse_oui_range(t: &Vec<char>, a: usize, b: usize) -> (r: Option<u32>)
    requires
        a <= b <= t.len(),
    ensures
        r == parse_oui(t@.subrange(a as int, b as int)),
{
    let ghost s = t@.subrange(a as int, b as int);
    let c1 = find_char(t, ':', a, b);
    if c1 >= b {
        return None;
    }
    let ghost r1 = s.subrange(c1 - a + 1, s.len() as int);
    assert(r1 =~= t@.subrange(c1 as int + 1, b as int));
    let c2 = find_char(t, ':', c1 + 1, b);
    if c2 >= b {
        return None;
    }
    let ghost r2 = r1.subrange(c2 - c1, r1.len() as int);
    assert(r2 =~= t@.subrange(c2 as int + 1, b as int));
    let c3 = find_char(t, ':', c2 + 1, b);
    if c3 < b {
        return None;
    }
    assert(s.subrange(0, c1 - a) =~= t@.subrange(a as int, c1 as int));
    assert(r1.subrange(0, c2 - c1 - 1) =~= t@.subrange(c1 as int + 1, c2 as int));
    let x = parse_hex_byte(t, a, c1);
    let y = parse_hex_byte(t, c1 + 1, c2);
    let z = parse_hex_byte(t, c2 + 1, b);
    match (x, y, z) {
        (Some(x), Some(y), Some(z)) => Some((x as u32) * 65536 + (y as u32) * 256 + (z as u32)),
        _ => None,
    }
}

fn line_entry_range(t: &Vec<char>, a: usize, b: usize) -> (r: Option<(u32, String)>)
    requires
        a <= b <= t.len(),
    ensures
        match line_entry(t@.subrange(a as int, b as int)) {
            Some((k, v)) => r matches Some(p) && p.0 == k && p.1@ == v,
            None => r is None,
        },
{
    let ghost line = t@.subrange(a as int, b as int);
    let (ta, tb) = trim_range(t, a, b);
    let ghost tt = trim(line);
    if ta == tb || t[ta] == '#' {
        return None;
    }
    let tab = find_char(t, '\t', ta, tb);
    if tab >= tb {
        return None;
    }
    assert(tt.subrange(0, tab - ta) =~= t@.subrange(ta as int, tab as int));
    let (oa, ob) = trim_range(t, ta, tab);
    let ghost rest = tt.subrange(tab - ta + 1, tt.len() as int);
    assert(rest =~= t@.subrange(tab as int + 1, tb as int));
    let tab2 = find_char(t, '\t', tab + 1, tb);
    assert(rest.subrange(0, tab2 - tab - 1) =~= t@.subrange(tab as int + 1, tab2 as int));
    let (sa, sb) = trim_range(t, tab + 1, tab2);
    let slash = find_char(t, '/', oa, ob);
    if slash < ob {
        return None;
    }
    match parse_oui_range(t, oa, ob) {
        Some(k) => Some((k, string_of(t, sa, sb))),
        None => None,
    }
}

/// Parses a `manuf` table: one entry per line that names a plain three-byte
/// OUI, later lines overriding earlier ones for the same OUI.
pub fn parse_manuf(text: &str) -> (map: OuiMap)
    ensures
        table_view(map@) == manuf_table(text@),
{
    let t = text_chars(text);
    let n = t.len();
    let mut map: OuiMap = HashMap::with_capacity(50000);
    let mut pos: usize = 0;
    assert(t@.subrange(0, n as int) =~= t@);
    assert(table_view(map@) =~= Map::<u32, Seq<char>>::empty());
    loop
        invariant_except_break
            pos <= n,
            n == t@.len(),
            t@ == text@,
            manuf_table(text@) == manuf_from(t@.subrange(pos as int, n as int), table_view(map@)),
        ensures
            table_view(map@) == manuf_table(text@),
        decreases n - pos,
    {
        let ghost rest = t@.subrange(pos as int, n as int);
        let ghost before = table_view(map@);
        let e = find_char(&t, '\n', pos, n);
        assert(rest.subrange(0, e - pos) =~= t@.subrange(pos as int, e as int));
        match line_entry_range(&t, pos, e) {
            Some((k, v)) => {
                map.insert(k, v);
                assert(table_view(map@) =~= before.insert(k, v@));
            },
            None => {},
        }
        if e >= n {
            break;
        }
        assert(rest.subrange(e - pos + 1, rest.len() as int) =~= t@.subrange(e as int + 1, n as int));
        pos = e + 1;
    }
    map
}

/// The packed key of the OUI of `mac` (its first three bytes).
pub fn oui_of(mac: &[u8; 6]) -> (k: u32)
    ensures
        k == oui_key(mac[0], mac[1], mac[2]),
{
    (mac[0] as u32) * 65536 + (mac[1] as u32) * 256 + (mac[2] as u32)
}

/// The vendor short name of `mac`, found by its first three bytes.
pub fn lookup(map: &OuiMap, mac: &[u8; 6]) -> (r: Option<String>)
    ensures
        match r {
            Some(s) => map@.contains_key(oui_key(mac[0], mac[1], mac[2])) && s@ == map@[oui_key(
                mac[0],
                mac[1],
                mac[2],
            )]@,
            None => !map@.contains_key(oui_key(mac[0], mac[1], mac[2])),
        },
{
    let key = oui_of(mac);
    match map.get(&key) {
        Some(s) => Some(s.clone()),
        None => None,
    }
}

} // verus!
