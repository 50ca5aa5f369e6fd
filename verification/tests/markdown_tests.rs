use wireguard_gui::markdown::{changelog_for_display, md_items, strip_inline_md, utf8_char_len, DocItem};

/// The in-app guide, as shipped in the application.
const HELP_TEXT: &str = r#"# WireGuard, explained

A friendly guide to what WireGuard is, what every field means, and how to use
this app. You don't need to be a network engineer — read the first two sections
and you can set up a tunnel.

---

## 1. The 60-second mental model

A **WireGuard tunnel** is an encrypted point-to-point link between two machines.
Think of it as a private cable plugged between you and a server: anything that
goes through the cable is encrypted and looks, to the rest of your network, like
it's coming from the machine at the other end.

Each tunnel has exactly two halves:

- **The Interface** = *you* (this machine). It has a private key, an address
  inside the tunnel, and optionally a DNS server to use while connected.
- **The Peer** = *the other machine* (usually your VPN server). It has a public
  key, a public address (the **endpoint**) to reach it at, and a list of which
  traffic should go through it (**AllowedIPs**).

When you **activate** a tunnel, the two halves do a quick **handshake** (a
cryptographic hello) and, once that succeeds, traffic flows. If the handshake
never completes, you're "active" but not actually connected — press **Diagnose**
to find out why.

---

## 2. The keys (this is the whole security model)

WireGuard uses **public-key cryptography**. Every machine has a **key pair**:

- **Private key** — your secret. It *never* leaves this machine and you never
  share it. Generate it with **Generate keypair** in the editor.
- **Public key** — derived from the private key. You *do* share this; it's how the
  server identifies you. The app shows it for you to copy.

The rule is symmetric: **the server must know your public key, and you must know
the server's public key.** That's it. If the server doesn't have your public key
in its peer list, it will silently ignore your handshakes (a very common cause of
"it won't connect").

- **Preshared key (PSK)** — *optional* extra symmetric secret added on top, for
  post-quantum belt-and-suspenders. If your config has one, the server must have
  the *same* PSK or the handshake fails. Generate it with **Generate PSK**.

> You usually don't create keys by hand: download a config from your provider /
> server (e.g. wg-easy) and import it — the keys are already filled in and already
> registered on the server.

---

## 3. Every field, in plain words

**Interface (you):**

- **Name** — just a label for the tunnel (e.g. `home`, `work`). Becomes the
  `wg0`-style interface name.
- **Private key** — your secret (see above).
- **Address** — your IP *inside* the tunnel, e.g. `10.100.0.17/24`. The server
  assigns this; it is not your normal LAN/IP.
- **DNS** — which DNS server(s) to use while the tunnel is up, e.g.
  `1.1.1.1`. Optional; needs a resolvconf provider on your system.
- **Listen port / MTU** — advanced, usually left blank (auto). MTU sometimes needs
  lowering (e.g. `1380`) on flaky links.

**Peer (the server):**

- **Public key** — the server's public key (identifies it).
- **Preshared key** — optional shared secret (see above).
- **Endpoint** — where to reach the server: `host:port`, e.g.
  `82.26.104.2:51820` or `[2001:db8::2]:51820`. This is the only address that goes
  out over your *normal* internet.
- **AllowedIPs** — which destinations get routed *into* the tunnel:
  - `0.0.0.0/0` = **full tunnel** — *all* your IPv4 traffic goes through the VPN.
  - `10.100.0.0/24` = **split tunnel** — only that subnet uses the VPN; everything
    else stays on your normal connection.
- **Persistent keepalive** — send a tiny packet every N seconds (commonly `25`) to
  keep the connection alive through NAT/firewalls. Recommended if you're behind a
  home router.

---

## 4. Using this app

**Get a tunnel in:**

- **Import tunnel(s) from file…** — the usual way: a `.conf` from your provider.
- **Import from QR code…** — point it at a QR image.
- **Create tunnel…** — start from a preset (Interface only / Full tunnel / Split
  tunnel); it generates a key pair for you. You then fill in the peer's public key
  and endpoint (from your server) and Save.

**Day to day:**

- Select a tunnel on the left to see its live status (handshake, transfer, speed).
- **Activate / Deactivate** brings the tunnel up/down (`wg-quick`).
- The **⧉** icons copy a value (public key, endpoint, …) to your clipboard.
- **Start on boot** makes it connect automatically at login (systemd).
- **Advanced ▾** on the tunnel card reveals expert actions — **Kill switch**
  (block all traffic if the tunnel drops, no leaks), **Running cfg** (show the
  live config), **Save live** (write the running state back to disk).

**The other tabs:**

- **Log** — recent WireGuard / app activity from the journal. Filter it, copy it,
  save it.
- **Backup** — snapshot every tunnel config; restore/export/delete later.

**When something's wrong:** press **Diagnose**. It checks, in order of how often
each is the culprit: your **system clock** (a wrong clock silently breaks
handshakes — really), the tunnel being up, the handshake completing, the endpoint
being reachable, and DNS. It tells you which step failed and what to do.

---

## 5. Two gotchas worth knowing

- **"Active but nothing loads."** The tunnel interface is up but the handshake
  isn't completing, so no real traffic flows. Causes, most common first: the
  system clock is off; the server doesn't have your public key; the endpoint is
  unreachable. Diagnose pinpoints it.
- **Don't manage the same tunnel from two places.** If NetworkManager (or another
  tool) is also handling this interface, they'll fight. Pick one.

---

This app never phones home, never sees your keys leave the machine, and only asks
for privilege to run `wg` / `wg-quick`. Your configs live in `/etc/wireguard`.
"#;

/// The changelog, as shipped in the application.
const CHANGELOG_TEXT: &str = r#"# Changelog

All notable changes to this project are documented here.
The format is based on [Keep a Changelog](https://keepachangelog.com/en/1.1.0/),
and this project adheres to [Semantic Versioning](https://semver.org/spec/v2.0.0.html).

## [Unreleased]

## [1.6.2] - 2026-06-18

### Added
- SSH auto-allowlist: kill switch auto-allows established SSH return traffic
  when `$SSH_CONNECTION` is detected.
- Terminal QR cell-aspect-ratio auto-detection (square vs 2:1 cells).
- TUI `+` key in Advanced mode to quick-add a `[Peer]` section via `$EDITOR`.
- Validation tests: tunnel name edge cases, max length, import sanitization.
- More helper tests: killswitch rule structure, iptables comment safety,
  SSH port parsing, FwMark detection, config validation edges.

### Changed
- GUI: `DetailRow` copy area uses clickable text + ⧉ icon instead of large
  "Copy" button; fixed text centering regression.
- GUI: `StatusDot` component extracted to `ui/components/statusdot.slint`.
- TUI: `popup_area` helper moved to `src/ui/helpers.rs`.
- Log limits increased to 1000 lines (was 300/200).

### Fixed
- Speed/throughput could get stuck at 0 when active detection from dump failed.
- `DetailRow` text centering caused by `TouchArea` default alignment.


## [1.6.0] - 2026-06-17

### Added
- nftables kill switch backend (preferred when `nft` is available; iptables/ip6tables fallback).
- SSH safety warning when enabling kill switch over an SSH connection.
- Kill switch rule-generation tests (nftables handle extraction, iptables rule numbering).

### Changed
- Speed display uses ↓ ↑ icons instead of "down"/"up" text.
- Log tab fetches up to 1000 journal lines (was 300/200).
- Log tab uses TextEdit read-only for native text selection and scrolling.
- Copy buttons replaced with clickable value text + trailing ⧉ icon.
- Throughput polling no longer gates on active flag (more reliable on first sample).

### Fixed
- Speed/throughput could get stuck at 0 when active detection from dump failed.
- Tunnel active detection now uses `wg show interfaces` list (reliable), fallback to dump.

## [1.5.5] - 2026-06-17

### Added
- Rust `wg-helper` binary with the same fixed verb contract as the previous
  helper.
- Advanced-mode kill switch toggle backed by helper-managed iptables/ip6tables
  rules for active tunnels.
- Multi-peer structured editor support for common Interface/Peer fields.
- aarch64 Linux release tarballs and Alpine/Void packaging templates.
- Easy Mode can create a tunnel from scratch with Interface-only, full-tunnel,
  and split-tunnel presets.

### Changed
- Reframed project docs and package metadata around the small native Linux
  WireGuard client model: plain `/etc/wireguard` configs, `wg`/`wg-quick`, no
  NetworkManager layer, and no mandatory runtime core.
- Copy buttons now use stable trailing actions and separate normalized
  single-field payloads from raw config/log copy payloads.

### Security
- The helper now performs a second, privileged-boundary config shape check before
  save/rename, in addition to frontend validation.
- Helper writes now make a best-effort `sync -f` before atomic rename.
- Runtime helper command execution moved out of shell into Rust argv-based
  process calls with fixed tool lookup and timeouts.
- CI now runs negative helper-name validation tests.
- CI now runs installer sanity checks for helper paths, sudoers validation, and
  non-root build handoff.

### Fixed
- Copying public keys, addresses, DNS, endpoints, and allowed IPs no longer
  carries accidental leading/trailing whitespace or display newlines.

## [1.5.4] - 2026-06-17

### Fixed
- **Installer now finds `sbin` tools after the root re-exec.** A normal user's
  `PATH` (which `su` carries into the as-root re-exec) usually omits `/usr/sbin`
  and `/sbin`, so `visudo` and the `resolvconf` probe silently failed - the
  passwordless drop-in was skipped ("sudoers validation failed") and a present
  `openresolv` was misreported as missing. The installer now puts sbin on `PATH`,
  so the sudoers drop-in is written and resolvconf is detected correctly.
- Clearer hint when the drop-in is skipped: re-run `./install.sh --polkit`.

## [1.5.3] - 2026-06-17

### Added
- **"No usable sudo -> install sudo and set it up."** When you can't use sudo
  (e.g. a Debian box where you aren't in the sudoers file), the installer re-runs
  itself as root with a **single** ROOT-password prompt (instead of one per step),
  installs `sudo` if it's missing, and writes a passwordless drop-in scoped to the
  helper for *your* user - which makes the app work as a normal user (no root, no
  prompt) even though you aren't in the `sudo` group.

### Security
- **Don't trust `$USER` when writing the sudoers rule.** The target user is now
  taken from the real uid (`id -un`), validated against a strict username pattern
  and confirmed to exist, so a crafted `$USER` can't inject a wider sudoers spec
  (e.g. `NOPASSWD: ALL`) - `visudo -cf` alone does not catch that.
- **The build no longer runs as root.** `cargo`/`rustup` run as the invoking user
  via `runuser`, so dependency build scripts never execute with root privilege and
  the toolchain/artifacts stay in that user's home.

### Fixed
- Clear, actionable error when the app can't gain root (no passwordless sudo and
  no `pkexec`) instead of a cryptic `spawn failed: No such file or directory`.
- Installer fails loudly if it can't set up any privilege path, rather than
  reporting success and leaving a non-working install.

## [1.5.2] - 2026-06-17

### Fixed
- **Install works when `sudo` is present but you're not a sudoer.** The installer
  previously assumed that having the `sudo` binary meant you could use it - so on
  a Debian server where the login user isn't in the sudoers file (`<user> is not
  in the sudoers file`) it aborted. It now probes real sudo usability (`sudo -n` /
  admin-group membership) and falls back to `su` (the ROOT password), and
  auto-switches the helper authorization to a polkit rule. Tip: run `su -` first,
  then `./install.sh`, to be prompted once instead of per step.

## [1.5.1] - 2026-06-17

### Added
- **DNS / resolvconf check.** The Setup window now reports whether a resolvconf
  provider is available for tunnels that use a `DNS =` line, and **Fix
  automatically** installs one (`openresolv`; systemd-resolved also counts). This
  is the fix for minimal Debian, where such tunnels failed with
  `resolvconf: command not found`.
- **Per-distro guide** ([docs/DISTROS.md](docs/DISTROS.md)): what to install, what
  to set up, what survives a reboot, and when - only as a server/gateway - you need
  firewall and IP-forwarding changes.

### Changed
- **Works without `sudo`.** The installer falls back to `su` (the ROOT password)
  on Debian-minimal where `sudo` isn't present, and auto-switches the helper
  authorization from a sudoers drop-in to a polkit rule when there's no `sudo`.
- Activation failures are now explained in plain language (e.g. the missing
  resolvconf provider) instead of the raw `wg-quick` output.

### Fixed
- Tunnels with a `DNS =` line no longer fail on systems without a resolvconf
  provider: the installer best-effort installs `openresolv` when neither it nor
  systemd-resolved is present.

## [1.5.0] - 2026-06-17

### Added
- **First-run Setup wizard.** On launch, the app runs a read-only system check
  (WireGuard tools, the privileged helper + its authorization, `/etc/wireguard`,
  systemd, journald). If everything critical is OK it goes straight to Easy mode;
  if not, a friendly wizard explains what's missing in plain language with
  **Fix automatically** (installs `wireguard-tools` via your package manager
  through pkexec, and creates `/etc/wireguard` - with confirmation), **Show
  commands**, **Re-check** and **Skip for now**. It never connects tunnels,
  enables start-on-boot, or touches existing configs.
- **Beginner-friendly empty state.** With no tunnels, the app shows "No tunnels
  yet" and **Import .conf / Import QR image** buttons (plus **New tunnel** in
  Advanced mode) instead of a blank pane.

### Notes
- The app **does not bundle WireGuard kernel modules or `wg`/`wg-quick`** - it
  uses your system's `wireguard-tools`, and helps you install them.

## [1.4.1] - 2026-06-17

### Added
- **Distro packaging**: an **AUR `PKGBUILD`** (Arch) and an **RPM spec for COPR**
  (Fedora/RHEL/Rocky), plus `packaging/PACKAGING.md`. (A Flatpak manifest is
  included but documented as experimental — the sandbox is a poor fit for a
  privileged system VPN manager.)

### Changed
- Documentation now uses plain ASCII hyphens instead of em dashes.

## [1.4.0] - 2026-06-17

### Added
- **Live throughput + connection health** in the Interface card: real-time
  down/up speed and a handshake-based health line (OK / stale / waiting).
- The **system-tray tooltip** now shows the active tunnels *and* live throughput.
- **`wireguard-gui --version` / `--help`** - print and exit without opening a window.

### Changed
- **Removed demo mode** (`WGGUI_DEMO`) - the app always talks to real tunnels.
- The privileged helper now **bounds every `wg`/`wg-quick` call with a timeout**,
  so a hang (DNS, a stuck `PostUp`, a wedged interface) can't lock up the app.
- CI now runs a **smoke test** (`--version`/`--help` start and exit cleanly).

## [1.3.5] - 2026-06-17

### Fixed
- The toolbar **Remove (delete) button** is no longer crowded off the bar: the
  Easy/Advanced toggle moved out of the top toolbar to the **bottom action bar,
  next to Edit**, where it's always reachable (even with no tunnel selected).

## [1.3.4] - 2026-06-17

### Added
- **Easy mode** (default) for everyday users: a toolbar toggle that hides expert
  tools (Export, Running cfg, Save live, *Add empty tunnel*), leaving the
  everyday surface - Add (import/QR), Activate/Deactivate, Edit, Remove, Show QR,
  Start on boot. Click **Advanced mode** to reveal everything; the choice is
  remembered (`~/.config/wireguard-gui/mode`).

## [1.3.3] - 2026-06-16

### Fixed
- The form editor now matches config keys **exactly**: a directive like
  `PrivateKeyFile` or `EndpointBackup` is no longer mistaken (by prefix) for
  `PrivateKey`/`Endpoint`, which could otherwise let the form open for - and then
  rewrite - a config it can't actually represent. Covered by a regression test.

### Changed
- The privileged helper is also discovered **next to the binary**, so an
  extracted release tarball / AppImage works without first running `install.sh`.
- CI now **hard-fails on `shellcheck` warnings** for `wg-helper` and `install.sh`.

## [1.3.2] - 2026-06-16

### Fixed
- **A bracketed-IPv6 `Endpoint`** (e.g. `[2001:db8::1]:51820`) is now accepted by
  config validation again. The stricter endpoint check added in 1.3.1 wrongly
  rejected it, which blocked saving/importing IPv6-endpoint tunnels. Covered by a
  regression test.

### Changed
- **Privileged helper portability.** `wg-helper` no longer relies on GNU
  `find -printf` (it uses a pure-bash glob, so it works with BusyBox `find` on
  Alpine/Void) and filters listed tunnels to valid names. Start-on-boot now
  detects `systemctl` first and fails with a clear message on non-systemd
  systems (`is-enabled` reports "unknown" so the UI shows "off"); the log view
  explains when `journalctl` isn't available.
- **Helper-path override hardening.** `$WG_HELPER` is honoured freely in debug
  builds, but in release builds it is ignored unless `WG_ALLOW_UNSAFE_HELPER=1`
  is set *and* the target is an absolute, root-owned, non-world-writable file.

### Added
- Unit tests for config parsing, validation, name sanitisation and the form
  representability check; a CI step that shell-syntax-checks `wg-helper` and
  `install.sh`.
- README cross-links the terminal sibling (`wireguard-tui`) and explains the
  `wg-quick` (not NetworkManager) model, the init-system limitation, and the
  QR/private-key warning.

## [1.3.1] - 2026-06-16

### Fixed
- **Form editor no longer drops config it can't represent.** Editing an existing
  tunnel that has a second `[Peer]`, `PostUp`/`PreUp`/`PostDown`/`PreDown`,
  `Table`, or other unmapped keys could silently strip them on Save. The form now
  refuses to open for such configs (keeping them in raw-text mode, with a notice)
  and never overwrites a config it can't faithfully round-trip.
- **Closing the window no longer strands the app** when there is no system-tray
  host (e.g. GNOME without the AppIndicator extension): with no tray to restore
  from, closing the window now quits instead of hiding into nothing.
- The live-status timer no longer overwrites the detail pane of a tunnel you just
  selected with a stale background reading.
- **Bulk file import** now validates each file and flags ones that run root
  scripts, matching the single-import path.
- Stricter config validation: endpoints require bracketed IPv6 and a valid host;
  addresses/AllowedIPs are parsed as real IP/CIDR; tunnel-name sanitisation always
  yields a helper-valid name (no stray leading symbol or trailing dot).
- `install.sh` header check now also works when only `pkgconf` (not `pkg-config`)
  is installed.
- `wg-helper`'s `sync` verifies `wg-quick strip` before applying, so a strip
  failure can't wipe peers off the live interface.
- The release workflow fails if the `.deb` or checksums are missing, instead of
  publishing a partial release.

## [1.3.0] - 2026-06-16

### Added
- **Structured editor (form view).** The tunnel editor now toggles between a
  **Config text** view (the raw `.conf`) and an **Edit fields** form with
  labelled Interface (Private key, Address, DNS, Listen port, MTU) and Peer
  (Public key, Preshared key, Allowed IPs, Endpoint, Persistent keepalive)
  fields. New tunnels open in the form; existing ones open in text view. Edits
  in either view stay in sync, and **Generate keypair/PSK** update both.
- **Minimal-install dependency check** in `install.sh`: before building it
  verifies the C toolchain, `pkg-config`, and the `fontconfig`/`xkbcommon`/
  `dbus-1` dev headers, and checks `wireguard-tools` at runtime - failing early
  with a clear message instead of a cryptic build error.

### Changed
- **Closing the window now minimizes to the tray** instead of quitting, matching
  the WireGuard for Windows client. The app keeps running; use the tray's
  **Show WireGuard** to reopen or **Quit** to exit.
- The main window opens larger (1000×720) for a roomier tunnel list and details.

## [1.2.0] - 2026-06-16

### Added
- **Generate preshared key** (`wg genpsk`) in the editor - pairs with the
  existing keypair generation.
- **Apply edits to a running tunnel without dropping peer sessions** - saving an
  active tunnel now uses `wg syncconf`; wg-quick-only fields (Address/DNS/MTU/
  Table) still prompt to reconnect.
- **Running cfg** - copy a live tunnel's running config (`wg showconf`).
- **Save live** - write the running state back to the `.conf` (`wg-quick save`).

## [1.1.1] - 2026-06-16

### Added
- The tray menu now shows a connection-status header, a hover tooltip listing
  active tunnels, a **Tunnels** submenu, and a **Deactivate all** action; it
  refreshes live.

### Fixed
- The **Edit** button's tooltip no longer overflows the right edge of the window.

## [1.1.0] - 2026-06-16

### Added
- **Keypair generation** - new tunnels open with a freshly generated private key
  and a live "Public key" field (like the WireGuard for Windows dialog); a
  "Generate keypair" button regenerates on demand.
- **QR codes** - *Show QR* renders a tunnel as a QR code to scan into the mobile
  app, and *Add Tunnel → Import from QR code…* imports from a QR image.
- **Export** all tunnels to a `.zip` (the export button in the bottom bar).
- **Copy** buttons for public keys, the full config, and the log.
- **Start on boot** toggle (enables/disables the `wg-quick@` systemd unit).
- **System-tray icon** with per-tunnel activate/deactivate, Show, and Quit
  (StatusNotifierItem; needs KDE or GNOME's AppIndicator extension).
- **Tooltips** on the toolbar/detail buttons, and an **About** window.

### Changed
- Live status now polls on a **background thread**, so the UI no longer stutters.
- Buttons are sized to their content (no more over-wide buttons).

## [1.0.0] - 2026-06-16

### Added
- **Log tab** (Tunnels / Log) showing recent activity - the app's audit log plus
  `wg-quick` service entries - with a Refresh button.

### Changed
- The **Activate/Deactivate** button now sits below the interface details and
  **Edit** sits at the bottom-right of the window, matching the WireGuard for
  Windows client.
- Updated dependencies (`rfd` 0.14 → 0.15) and pinned all GitHub Actions to
  their latest releases (checkout v6, rust-cache v2.9.1, gh-release v3) - also
  clears the Node 20 deprecation warning in CI.

### Fixed
- **Text inputs no longer render blank on a light background.** Root cause: in a
  dark OS color scheme the std-widgets used near-white field fills that vanished
  on white windows (visible only when focused). The app now forces the light
  palette (`Palette.color-scheme = light`, built with the `fluent-light` style),
  so the editor and inputs render correctly on the light theme.

## [0.2.0] - 2026-06-16

### Added
- Screenshots in the README.
- A demo mode (`WGGUI_DEMO=1`) with sample tunnels, for local development.
- Project docs: `CONTRIBUTING.md`, `SECURITY.md`, this changelog, and GitHub
  issue/PR templates.
- **Signed releases**: `SHA256SUMS` is now signed with minisign
  (`SHA256SUMS.minisig`), and the public key (`minisign.pub`) ships in the repo
  and each release. Verify with
  `minisign -Vm SHA256SUMS -P RWSrokrj4nWGDhUf409+6yXuqPfF7WQuGtSk/PdsnTWKwfOpb3Hv4DxG`.

### Changed
- The editor warns (amber) when a config contains `PostUp`/`PreUp`/`PostDown`/
  `PreDown` - directives `wg-quick` runs as root on activation.

### Security
- `wg-helper` now exports a fixed `PATH`, so a hijacked caller `PATH` can't
  redirect the commands it runs as root (defense-in-depth on distros without
  sudo `secure_path`).
- Supply-chain hardening in CI/release: all third-party GitHub Actions are
  pinned to commit SHAs, and `linuxdeploy` is pinned to a release with a
  verified SHA-256.

### Fixed
- The editor window now uses the light theme (matching the main window) by
  painting its backdrop with a sibling `Rectangle` behind the content, instead
  of a window/ancestor background that left the text inputs blank.

## [0.1.0] - 2026-06-16

### Added
- First release: a native Linux GUI for managing WireGuard tunnels, modelled on
  the WireGuard for Windows client (Rust + Slint).
- Tunnel list with a live active/inactive indicator.
- Interface card (status, public key, listen port, addresses, DNS) and Peer
  card(s) with **live** latest-handshake and transfer, polled every second.
- Activate / Deactivate (`wg-quick up`/`down`).
- Import one or many `.conf` files - single imports open the editor to name the
  tunnel; bulk imports auto-deduplicate names.
- Inline editor with **config validation** (keys, addresses, endpoint, …); rename
  and remove tunnels.
- **Hardened privileged helper** (`wg-helper`): fixed paths, strict tunnel-name
  validation (no path traversal), atomic config writes, timestamped backups
  before every overwrite/delete, and journald audit logging.
- Privilege backends: **sudoers** (default) or **polkit** (`--polkit`, used by
  the `.deb`); `pkexec` fallback.
- **Universal installer** (`install.sh`) supporting apt, dnf/yum, pacman, zypper,
  apk, xbps and eopkg - auto-installs all missing dependencies (including
  `wireguard-tools` and Rust via rustup), then builds and installs.
- Release pipeline (GitHub Actions): `.deb`, AppImage and a binary tarball with
  `SHA256SUMS`, plus CI running rustfmt, clippy and a release build.

[Unreleased]: https://github.com/JamilleJung/wireguard-gui/compare/v1.5.0...HEAD
[1.5.0]: https://github.com/JamilleJung/wireguard-gui/compare/v1.4.1...v1.5.0
[1.4.1]: https://github.com/JamilleJung/wireguard-gui/compare/v1.4.0...v1.4.1
[1.4.0]: https://github.com/JamilleJung/wireguard-gui/compare/v1.3.5...v1.4.0
[1.3.5]: https://github.com/JamilleJung/wireguard-gui/compare/v1.3.4...v1.3.5
[1.3.4]: https://github.com/JamilleJung/wireguard-gui/compare/v1.3.3...v1.3.4
[1.3.3]: https://github.com/JamilleJung/wireguard-gui/compare/v1.3.2...v1.3.3
[1.3.2]: https://github.com/JamilleJung/wireguard-gui/compare/v1.3.1...v1.3.2
[1.3.1]: https://github.com/JamilleJung/wireguard-gui/compare/v1.3.0...v1.3.1
[1.3.0]: https://github.com/JamilleJung/wireguard-gui/compare/v1.2.0...v1.3.0
[1.2.0]: https://github.com/JamilleJung/wireguard-gui/compare/v1.1.1...v1.2.0
[1.1.1]: https://github.com/JamilleJung/wireguard-gui/compare/v1.1.0...v1.1.1
[1.1.0]: https://github.com/JamilleJung/wireguard-gui/compare/v1.0.0...v1.1.0
[1.0.0]: https://github.com/JamilleJung/wireguard-gui/compare/v0.2.0...v1.0.0
[0.2.0]: https://github.com/JamilleJung/wireguard-gui/compare/v0.1.0...v0.2.0
[0.1.0]: https://github.com/JamilleJung/wireguard-gui/releases/tag/v0.1.0
"#;

/// Find the kind tag a given line text was assigned.
fn kind_of<'a>(items: &'a [DocItem], text: &str) -> Option<&'a str> {
    items.iter().find(|i| i.text == text).map(|i| i.kind.as_str())
}

#[test]
fn strips_bold_code_italic_markers() {
    assert_eq!(strip_inline_md("**bold** and `code`"), "bold and code");
    assert_eq!(strip_inline_md("an *italic* word"), "an italic word");
    // A standalone marker just vanishes (display-only, lenient).
    assert_eq!(strip_inline_md("a ** b"), "a  b");
}

#[test]
fn rewrites_links_to_their_label() {
    assert_eq!(
        strip_inline_md("see [Keep a Changelog](https://example.com) here"),
        "see Keep a Changelog here"
    );
    // An unmatched bracket is left verbatim.
    assert_eq!(strip_inline_md("an [open bracket"), "an [open bracket");
}

#[test]
fn preserves_non_ascii_text() {
    // Em dash and bullet glyphs must round-trip untouched.
    assert_eq!(strip_inline_md("a — b • c"), "a — b • c");
}

#[test]
fn classifies_headings_rules_and_blanks() {
    let items = md_items("# Title\n## Sub\n### SubSub\n\n---\nplain line");
    assert_eq!(kind_of(&items, "Title"), Some("h1"));
    assert_eq!(kind_of(&items, "Sub"), Some("h2"));
    assert_eq!(kind_of(&items, "SubSub"), Some("h3"));
    // A blank and a rule both carry empty text; check by position/count.
    assert!(items.iter().any(|i| i.kind == "blank"));
    assert!(items.iter().any(|i| i.kind == "rule"));
    assert_eq!(kind_of(&items, "plain line"), Some("normal"));
}

#[test]
fn bullets_get_markers_and_nesting() {
    let items = md_items("- top\n  - nested\n* star top");
    assert_eq!(kind_of(&items, "• top"), Some("bullet"));
    assert_eq!(kind_of(&items, "  ◦ nested"), Some("bullet"));
    assert_eq!(kind_of(&items, "• star top"), Some("bullet"));
}

#[test]
fn quote_strips_marker() {
    let items = md_items("> a quoted **note**");
    assert_eq!(kind_of(&items, "a quoted note"), Some("quote"));
}

#[test]
fn fenced_code_is_verbatim_and_skips_fences() {
    let items = md_items("```\nlet x = **not bold**;\n```\nafter");
    // The fence lines are dropped; the body keeps its markers verbatim.
    assert_eq!(kind_of(&items, "let x = **not bold**;"), Some("code"));
    assert!(!items.iter().any(|i| i.text.starts_with("```")));
    assert_eq!(kind_of(&items, "after"), Some("normal"));
}

#[test]
fn real_docs_parse_without_panicking() {
    // Smoke: the embedded docs must parse and produce styled rows.
    let help = md_items(HELP_TEXT);
    let changelog = md_items(CHANGELOG_TEXT);
    assert!(help.iter().any(|i| i.kind == "h1"));
    assert!(changelog.iter().any(|i| i.kind == "h2"));
    // No emitted (non-code) line should still contain a literal `**`.
    assert!(!help.iter().any(|i| i.kind != "code" && i.text.contains("**")));
}

#[test]
fn plain_text_is_unchanged() {
    assert_eq!(strip_inline_md("nothing to strip here: a_b c-d 1.2"), "nothing to strip here: a_b c-d 1.2");
    assert_eq!(strip_inline_md(""), "");
}

#[test]
fn doubled_and_stray_markers_are_dropped() {
    assert_eq!(strip_inline_md("``x``"), "x");
    assert_eq!(strip_inline_md("***x***"), "x");
    assert_eq!(strip_inline_md("`a` *b* **c**"), "a b c");
}

#[test]
fn link_edge_cases() {
    // A label holding `[` is not a link.
    assert_eq!(strip_inline_md("[a[b](u)"), "[ab");
    // A line break before the closing `)` stops the link.
    assert_eq!(strip_inline_md("[a](u\nv)"), "[a](u\nv)");
    // Two links in a row, with text after.
    assert_eq!(strip_inline_md("[a](x)[b](y)!"), "ab!");
    // The link label is kept as written.
    assert_eq!(strip_inline_md("[**b**](u)"), "**b**");
}

#[test]
fn utf8_lead_bytes() {
    assert_eq!(utf8_char_len(b'a'), 1);
    assert_eq!(utf8_char_len(0xC3), 2);
    assert_eq!(utf8_char_len(0xE2), 3);
    assert_eq!(utf8_char_len(0xF0), 4);
    assert_eq!(utf8_char_len(0x80), 1);
    assert_eq!(utf8_char_len(0xF8), 1);
    for (c, n) in [('a', 1), ('é', 2), ('—', 3), ('😀', 4)] {
        let mut buf = [0u8; 4];
        let s = c.encode_utf8(&mut buf);
        assert_eq!(utf8_char_len(s.as_bytes()[0]), n);
    }
}

#[test]
fn nested_bullet_by_bytes_of_indent() {
    // One tab is a single byte of indentation: not nested.
    let items = md_items("\t- one");
    assert_eq!(kind_of(&items, "• one"), Some("bullet"));
    // An ideographic space is three bytes: nested.
    let items = md_items("\u{3000}- deep");
    assert_eq!(kind_of(&items, "  ◦ deep"), Some("bullet"));
}

#[test]
fn other_line_kinds() {
    let items = md_items("***\n___\n#NoSpace\n> \n-notbullet\n  indented text  ");
    assert_eq!(items[0].kind, "rule");
    assert_eq!(items[0].text, "");
    assert_eq!(items[1].kind, "rule");
    assert_eq!(kind_of(&items, "#NoSpace"), Some("normal"));
    // "> " trims to ">", which is no quote marker.
    assert_eq!(kind_of(&items, ">"), Some("normal"));
    assert_eq!(kind_of(&items, "-notbullet"), Some("normal"));
    assert_eq!(kind_of(&items, "indented text"), Some("normal"));
    assert_eq!(items.len(), 6);
}

#[test]
fn code_block_keeps_indentation_and_unclosed_fence_runs_to_end() {
    let items = md_items("intro\n```rust\n    let a = 1;\n\nend");
    assert_eq!(items.len(), 4);
    assert_eq!(items[0].kind, "normal");
    assert_eq!(items[1].text, "    let a = 1;");
    assert_eq!(items[1].kind, "code");
    assert_eq!(items[2].text, "");
    assert_eq!(items[2].kind, "code");
    assert_eq!(items[3].kind, "code");
}

#[test]
fn changelog_starts_at_first_release() {
    let src = "# Changelog\n\nIntro text.\n\n## [Unreleased]\n\n## [1.6.2] - 2024-01-01\n- fix\r\n\n## [1.6.1]\n- older\n";
    assert_eq!(changelog_for_display(src), "## [1.6.2] - 2024-01-01\n- fix\n\n## [1.6.1]\n- older");
    // Without a release heading the text is kept whole.
    assert_eq!(changelog_for_display("# Changelog\n\nnothing yet\n"), "# Changelog\n\nnothing yet\n");
    // Leading whitespace before the heading is allowed.
    assert_eq!(changelog_for_display("x\n  ## [2.0.0]\ny"), "  ## [2.0.0]\ny");
}

#[test]
fn real_changelog_view_begins_with_a_release() {
    let log = changelog_for_display(CHANGELOG_TEXT);
    assert!(log.starts_with("## ["));
    assert!(log.as_bytes()[4].is_ascii_digit());
    let items = md_items(&log);
    assert_eq!(items[0].kind, "h2");
}
