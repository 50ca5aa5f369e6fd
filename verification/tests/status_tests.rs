use wireguard_gui::backend::Tunnel;
use wireguard_gui::ui_bridge::qr::{qr_image, qr_pixels, QUIET, SCALE};
use wireguard_gui::ui_bridge::status::{
    active_names, advanced_state, connection_warning, speed_text, tray_summary, check_status, commands_text, find_tunnel, fix_command, fmt_ago,
    health_str, import_status, install_status, log_lines, refreshed_selection, show_advanced, tray_header,
    tray_tooltip, tunnel_is_up, Check,
};
use wireguard_gui::update::UpdateInfo;

fn tunnels(list: &[(&str, bool)]) -> Vec<Tunnel> {
    list.iter().map(|(n, a)| Tunnel { name: n.to_string(), active: *a }).collect()
}

#[test]
fn compact_ages() {
    assert_eq!(fmt_ago(0), "0s");
    assert_eq!(fmt_ago(59), "59s");
    assert_eq!(fmt_ago(60), "1m");
    assert_eq!(fmt_ago(3599), "59m");
    assert_eq!(fmt_ago(3600), "1h");
    assert_eq!(fmt_ago(90000), "25h");
}

#[test]
fn health_lines() {
    assert_eq!(health_str(false, Some(5)), (String::new(), false));
    assert_eq!(health_str(true, Some(12)), ("OK (last handshake 12s ago)".to_string(), true));
    assert_eq!(health_str(true, Some(179)), ("OK (last handshake 2m ago)".to_string(), true));
    assert_eq!(health_str(true, Some(180)), ("stale (last handshake 3m ago)".to_string(), false));
    assert_eq!(health_str(true, Some(7200)), ("stale (last handshake 2h ago)".to_string(), false));
    assert_eq!(health_str(true, None), ("waiting for handshake…".to_string(), false));
}

#[test]
fn log_view_states_and_filters() {
    assert_eq!(log_lines("", "", None), vec!["(loading… press Refresh if this stays empty)"]);
    assert_eq!(
        log_lines("Could not read the log: denied\nsecond", "zzz", Some("x")),
        vec!["Could not read the log: denied", "second"]
    );
    assert_eq!(log_lines("(no recent log entries)", "a", None), vec!["(no recent log entries)"]);
    let raw = "wg-quick up home\nHandshake with HOME peer\nwork: keepalive\n";
    assert_eq!(log_lines(raw, "", None), vec!["wg-quick up home", "Handshake with HOME peer", "work: keepalive"]);
    assert_eq!(log_lines(raw, "HOME", None), vec!["wg-quick up home", "Handshake with HOME peer"]);
    assert_eq!(log_lines(raw, "", Some("home")), vec!["wg-quick up home"]);
    assert_eq!(log_lines(raw, "keep", Some("work")), vec!["work: keepalive"]);
    assert_eq!(log_lines(raw, "nothing", None), vec!["(no log lines match the current filter)"]);
}

#[test]
fn tray_texts() {
    let ts = tunnels(&[("home", true), ("lab", false), ("work", true)]);
    assert_eq!(active_names(&ts), vec!["home", "work"]);
    assert_eq!(tray_header(&ts), "Connected: home, work");
    assert_eq!(tray_tooltip("", &ts), "Active: home, work");
    assert_eq!(tray_tooltip("1 up, 3 KiB/s", &ts), "1 up, 3 KiB/s");
    let idle = tunnels(&[("lab", false)]);
    assert_eq!(tray_header(&idle), "Not connected");
    assert_eq!(tray_tooltip("", &idle), "No active tunnel");
    assert!(tunnel_is_up(&ts, "home"));
    assert!(!tunnel_is_up(&ts, "lab"));
    assert!(!tunnel_is_up(&ts, "nope"));
}

#[test]
fn list_selection() {
    let ts = tunnels(&[("a", false), ("b", true), ("b", false)]);
    assert_eq!(find_tunnel(&ts, "b"), Some(1));
    assert_eq!(find_tunnel(&ts, "z"), None);
    assert_eq!(refreshed_selection(&ts, Some("b")), Some(2));
    assert_eq!(refreshed_selection(&ts, Some("gone")), None);
    assert_eq!(refreshed_selection(&ts, None), Some(0));
    assert_eq!(refreshed_selection(&Vec::new(), None), None);
}

#[test]
fn setup_commands() {
    let checks = vec![
        Check { name: "wg".to_string(), ok: false, fix: Some("apt install wireguard-tools".to_string()) },
        Check { name: "helper".to_string(), ok: true, fix: Some("ignored".to_string()) },
        Check { name: "dns".to_string(), ok: false, fix: None },
        Check { name: "dir".to_string(), ok: false, fix: Some("install -d /etc/wireguard  ".to_string()) },
    ];
    assert_eq!(
        commands_text(&checks),
        "# wg\napt install wireguard-tools\n\n# dir\ninstall -d /etc/wireguard"
    );
    assert_eq!(commands_text(&Vec::new()), "Everything looks good.");
    assert_eq!(
        fix_command(false, Some("apt-get install -y wireguard-tools".to_string()), false, Some("apt-get install -y resolvconf".to_string()), false),
        Some("apt-get install -y wireguard-tools && apt-get install -y resolvconf && install -d -m 700 /etc/wireguard".to_string())
    );
    assert_eq!(fix_command(true, Some("x".to_string()), true, None, true), None);
    assert_eq!(fix_command(false, None, true, Some("y".to_string()), true), None);
    assert_eq!(fix_command(true, None, false, Some("y".to_string()), true), Some("y".to_string()));
}

#[test]
fn update_window_messages() {
    let found: Result<Option<UpdateInfo>, String> =
        Ok(Some(UpdateInfo { current: "1.6.2".to_string(), latest: "1.7.0".to_string() }));
    assert_eq!(check_status(&found, "1.6.2"), ("Update available: v1.6.2 → v1.7.0".to_string(), true));
    assert_eq!(check_status(&Ok(None), "1.6.2"), ("You are on the latest version (v1.6.2).".to_string(), false));
    assert_eq!(
        check_status(&Err("offline".to_string()), "1.6.2"),
        ("Couldn't check for updates (offline?).".to_string(), false)
    );
    assert_eq!(install_status(&Ok(())), "Update installed — restart wireguard-gui to apply.");
    assert_eq!(install_status(&Err("bad sig".to_string())), "Update failed: bad sig");
}

#[test]
fn advanced_section_state() {
    assert!(show_advanced("expanded\n"));
    assert!(show_advanced("  advanced"));
    assert!(!show_advanced("collapsed"));
    assert!(!show_advanced("Expanded"));
    assert!(!show_advanced(""));
    for b in [true, false] {
        assert_eq!(show_advanced(advanced_state(b)), b);
    }
}

#[test]
fn qr_image_of_a_config() {
    let img = qr_image("[Interface]\nPrivateKey = x\n").unwrap();
    let side = img.side;
    assert_eq!(img.rgba.len(), side * side * 4);
    let modules = side / SCALE - 2 * QUIET;
    assert!((21..=177).contains(&modules));
    assert_eq!((modules - 21) % 4, 0);
    let px = |x: usize, y: usize| &img.rgba[(y * side + x) * 4..(y * side + x) * 4 + 4];
    // The quiet zone is white and opaque.
    assert_eq!(px(0, 0), &[255, 255, 255, 255]);
    assert_eq!(px(side - 1, side - 1), &[255, 255, 255, 255]);
    // The finder pattern's corner module is dark.
    let q = QUIET * SCALE;
    assert_eq!(px(q, q), &[0, 0, 0, 255]);
    assert_eq!(px(q + SCALE - 1, q + SCALE - 1), &[0, 0, 0, 255]);
    // Its second ring is light.
    assert_eq!(px(q + SCALE, q + SCALE), &[255, 255, 255, 255]);
    // A longer text never needs a smaller symbol.
    let bigger = qr_image(&"x".repeat(500)).unwrap();
    assert!(bigger.side > side);
    // Data too long for any QR version is refused.
    assert!(qr_image(&"x".repeat(5000)).is_none());
}

#[test]
fn qr_pixels_of_a_tiny_symbol() {
    // A 1-module symbol: (1 + 8) * 8 = 72 pixels per side.
    let dark = qr_pixels(1, &vec![true]);
    assert_eq!(dark.len(), 72 * 72 * 4);
    let at = |v: &Vec<u8>, x: usize, y: usize| v[(y * 72 + x) * 4];
    assert_eq!(at(&dark, 32, 32), 0);
    assert_eq!(at(&dark, 39, 39), 0);
    assert_eq!(at(&dark, 40, 39), 255);
    assert_eq!(at(&dark, 31, 32), 255);
    assert!(dark.chunks(4).all(|p| p[3] == 255));
    let light = qr_pixels(1, &vec![false]);
    assert!(light.iter().all(|b| *b == 255));
    assert!(qr_pixels(0, &Vec::new()).iter().all(|b| *b == 255));
}

#[test]
fn import_summaries() {
    assert_eq!(import_status(2, 0, false), Some("Imported 2 tunnel(s)".to_string()));
    assert_eq!(
        import_status(3, 1, true),
        Some("Imported 3 tunnel(s), 1 skipped (invalid) — ⚠ some run scripts as root".to_string())
    );
    assert_eq!(import_status(0, 4, true), Some("Nothing imported — 4 file(s) invalid".to_string()));
    assert_eq!(import_status(0, 0, false), None);
}

#[test]
fn live_summary_lines() {
    let ts = tunnels(&[("home", true), ("lab", false)]);
    assert_eq!(tray_summary(&ts, ""), "Active: home");
    assert_eq!(tray_summary(&ts, "↓ 1 B/s"), "Active: home · ↓ 1 B/s");
    assert_eq!(tray_summary(&tunnels(&[("lab", false)]), "x"), "No active tunnel");
    assert_eq!(speed_text(2048, 0), "↓ 2.00 KiB/s   ↑ 0 B/s");
    assert_eq!(connection_warning(true, None), "Not connected: no handshake yet. Click Diagnose for why.");
    assert_eq!(connection_warning(true, Some(181)), "Not connected: no handshake yet. Click Diagnose for why.");
    assert_eq!(connection_warning(true, Some(180)), "");
    assert_eq!(connection_warning(false, None), "");
}
