# aula_driver

A driver for the AULA F75 keyboard on Linux. The keyboard's key map, lighting
and settings are read and written through HID feature reports; this crate
holds the protocol as a Verus-verified library and a small program around it.

- `src/` — the verified library
  - `types.rs`: effects, layers, keys, colours and status records, with the
    wire codes of effects and layers.
  - `text.rs`: hexadecimal key-code text (`0x` and eight digits) and decimal
    digits.
  - `utils.rs`: reading key codes, the code-to-label table of known keys, and
    the colour of a key in the three-plane light map.
  - `devices/aula_f75.rs`: framing of reports, reading of every answer, and
    the payloads that write settings, key maps, key colours and the colour
    table, with the laws that relate what is written to what is read back.
- `app/` — the program: reads `test.toml`, finds the keyboard with hidapi and
  sends the library's reports.
- `tests/` — tests of the library on concrete values.
