use knoob::oui::{lookup, oui_of, parse_manuf};
use knoob::web::{directory_index_path, static_asset_path, static_content_type};

const TABLE: &str = "# Wireshark manuf\n\
00:00:00\tXerox\tXerox Corporation\n\
\n\
00:01:42 \tCisco \tCisco Systems, Inc\r\n\
00:55:DA:00:00:00/28\tPrefix\tSomething\n\
no tab here\n\
0A:1b:+2c\tMixed\n\
00:00:00\tXeroxAgain\n\
12:34\tShort\n\
12:34:56:78\tLong\n\
1g:00:00\tBadHex\n\
100:00:00\tTooBig\n\
  FC:FB:FB\t  Padded  \tname\n";

#[test]
fn manuf_lines_parse() {
    let m = parse_manuf(TABLE);
    assert_eq!(lookup(&m, &[0x00, 0x01, 0x42, 9, 9, 9]).as_deref(), Some("Cisco"));
    // a later line overrides an earlier one
    assert_eq!(lookup(&m, &[0, 0, 0, 1, 2, 3]).as_deref(), Some("XeroxAgain"));
    // hex digits of either case and a leading '+'
    assert_eq!(lookup(&m, &[0x0a, 0x1b, 0x2c, 0, 0, 0]).as_deref(), Some("Mixed"));
    assert_eq!(lookup(&m, &[0xfc, 0xfb, 0xfb, 0, 0, 0]).as_deref(), Some("Padded"));
    assert_eq!(m.len(), 4);
}

#[test]
fn manuf_rejected_lines() {
    let m = parse_manuf(TABLE);
    // prefix-length entries are not taken
    assert_eq!(lookup(&m, &[0x00, 0x55, 0xda, 0, 0, 0]), None);
    assert_eq!(lookup(&m, &[0x12, 0x34, 0x56, 0, 0, 0]), None);
    assert_eq!(lookup(&m, &[0x10, 0x00, 0x00, 0, 0, 0]), None);
    assert!(parse_manuf("").is_empty());
    assert!(parse_manuf("# only a comment").is_empty());
}

#[test]
fn lookup_uses_the_first_three_bytes() {
    let m = parse_manuf("aa:bb:cc\tVendor");
    assert_eq!(oui_of(&[0xaa, 0xbb, 0xcc, 1, 2, 3]), 0xaabbcc);
    assert_eq!(lookup(&m, &[0xaa, 0xbb, 0xcc, 0, 0, 0]), lookup(&m, &[0xaa, 0xbb, 0xcc, 0xff, 0xff, 0xff]));
    assert_eq!(lookup(&m, &[0xaa, 0xbb, 0xcd, 0, 0, 0]), None);
}

#[test]
fn asset_paths() {
    assert_eq!(static_asset_path("/"), "index.html");
    assert_eq!(static_asset_path(""), "index.html");
    assert_eq!(static_asset_path("///"), "index.html");
    assert_eq!(static_asset_path("/_next/app.js"), "_next/app.js");
    assert_eq!(static_asset_path("//devices"), "devices");
    assert_eq!(directory_index_path("devices"), "devices/index.html");
}

#[test]
fn content_types() {
    assert_eq!(static_content_type("index.html"), "text/html");
    assert_eq!(static_content_type("_next/app.js"), "text/javascript");
    assert_eq!(static_content_type("logo.svg"), "image/svg+xml");
    assert_eq!(static_content_type("LICENSE"), "application/octet-stream");
}
