# wireguard-gui core

The logic of a desktop WireGuard client, written in Verus and proved
against its contracts:

- `src/backend.rs` — reading tunnel configs, validating them, naming
  tunnels, the live `wg show <iface> dump`, the detail view, and how the
  privileged helper is invoked;
- `src/update.rs` — the latest release tag, version comparison, release
  asset names and how the installer is run;
- `src/markdown.rs` — the display-only markdown of the Help and changelog
  views;
- `src/startup.rs` — command-line arguments and other start-up decisions;
- `src/ui_bridge/` — the structured config editor (`editor_form`, with its
  round-trip laws in `editor_laws`), the editor's peer and save decisions
  (`editor_session`), key lines (`key_lines`), status texts (`status`) and
  the QR code image (`qr`);
- `src/text.rs` — character-level primitives stated over `Seq<char>`.

`app/` holds the program around the library: processes, files, sockets and
the network. `tests/` runs the library on concrete values.
