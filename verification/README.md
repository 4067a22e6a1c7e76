# knoob

A passive Wi-Fi observer: a C capture layer reports every 802.11 frame seen
on a monitor-mode interface; the program records access points, client
devices, per-second frame counts and association events in four LMDB stores
and serves them over an HTTP API next to an embedded web front end.

## Layout

- `src/` — the verified library (Verus):
  - `order.rs`: lexicographic order of byte strings (the store's key order);
  - `keys.rs`: the 14-byte keys (big-endian time, then MAC) and their laws:
    decoding, and key order = time order;
  - `scan.rs`: the per-row decisions of the range scans and the laws that say
    which rows a whole scan takes;
  - `records.rs`: stored records and the decisions taken on each captured frame;
  - `series.rs`: totals per second and connect/disconnect counts per device;
  - `api.rs`: the API's response rows and the text of MAC addresses;
  - `text.rs`: characters, hexadecimal digits, order of texts;
  - `oui.rs`: the `manuf` vendor table parser and lookup;
  - `web.rs`: the static-file route's path resolution and content type.
- `app/` — the program around it: LMDB, bitcode, the HTTP server, the C
  capture interface and signal handling.
- `tests/` — tests of the library on concrete values.
