# double-compresso

Client-side library for Double Compresso devices, verified with Verus.

`src/` is the verified library:

- `gatt`: the GATT identifiers shared with the firmware, their little-endian
  byte layout, and recognising the firmware service among a device's services;
- `address`: Bluetooth addresses as order-preserving 48-bit keys;
- `text`: lexicographic byte order and substring search, as `str` does them;
- `adapters`: the order in which adapters are offered and the adapter that a
  selection picks;
- `version`: parsing the firmware version string a device reports;
- `devices`: the list of discovered devices, by address and by last-seen time,
  with `Found`/`Lost` events and stale-device cleanup;
- `cleanup`: the schedule of the next cleanup;
- `scan`: what a scan does with each adapter event;
- `session`: scanning versus connecting to one device.

`app/` is the command-line program around it: Bluetooth I/O through btleplug,
tokio tasks and channels, logging and argument parsing.
