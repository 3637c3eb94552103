# rsterminal

The core of rsTerm, a multi-terminal emulator (local shell, SSH, serial,
BLE) with a dual-pane file manager, written as a verified library.

`src/` holds the logic, each function with a contract proved by Verus:

- `terminal/parser.rs`: the escape-sequence state machine; its transitions
  are stated byte by byte (`spec_step`), and `Parser::process` hands a
  `TermHandler` exactly the calls the input amounts to.
- `terminal/screen.rs` with `cells`, `grid`, `layout`, `visual` and
  `reflow`: the screen model: printing with delayed auto-wrap, scrolling
  regions, the scrollback of logical lines and its visual rows, the
  alternate screen, device reports, and the reflow of soft-wrapped rows on
  resize.
- `connection.rs` (connection states, the framing of the multiplexed BLE
  stream, PTY read bursts, resize signals), `ble.rs` (known BLE terminal
  profiles, pairing GATT characteristics into ports, choosing the link of a
  peripheral, scan labels), `ssh.rs` (SSH target, login order, session
  loop steps), `serial.rs`, `process.rs`, `files.rs`, `session.rs`,
  `storage.rs`, `config.rs`, `i18n.rs`, `fonts.rs`, `platform.rs`,
  `text.rs`.

Laws that span several functions are public proof functions next to the
code they speak of (for example `lemma_run_chunks`, `lemma_resize_keeps_content`,
`lemma_mux_round_trip`, `lemma_civil_round_trip`).

`app/` is the desktop program around the library: the window (egui), the
PTY and serial connections, file system and settings I/O. `tests/` runs the
library on concrete inputs.
