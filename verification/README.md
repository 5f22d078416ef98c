# adb_qr

Pairing of Android 11+ devices for wireless debugging by QR code.

- `src/` is the library, verified with Verus: reading `adb` output
  (`adb.rs`), the pairing payload and its terminal, SVG and PNG renderings
  (`qr.rs`), the decisions of the pairing flow (`workflow.rs`), errors and
  exit codes (`error.rs`), the command-line values (`cli.rs`) and the text
  model they rest on (`text.rs`). `qrcode.rs` and `random.rs` hold the
  contracts assumed of the `qrcodegen` and `rand` crates.
- `app/main.rs` is the `adb-qr` program: argument parsing with `clap`,
  running `adb`, waiting, writing files (PNG through the `png` crate) and
  printing.
- `tests/` exercises the library.
