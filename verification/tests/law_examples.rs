use wireguard_gui::backend::{list_tunnels, sanitize_name, unique_name, validate_config, Tunnel};
use wireguard_gui::markdown::{md_items, strip_inline_md};
use wireguard_gui::ui_bridge::editor_form::{config_to_fields, fields_to_config, form_representable};
use wireguard_gui::ui_bridge::key_lines::{set_private_key, set_psk};
use wireguard_gui::ui_bridge::status::log_lines;
use wireguard_gui::update::parse;

fn safe(name: &str) -> bool {
    (1..=15).contains(&name.chars().count())
        && name.chars().all(|c| c.is_ascii_alphanumeric() || c == '_' || c == '-' || c == '.')
        && !name.starts_with('.')
}

#[test]
fn read_write_read_is_stable() {
    let messy = "# top\n[interface]\n  PrivateKey =  k1  \nAddress=10.0.0.2/24\nTable = off\n[Peer]\nPublicKey = p\nAllowedIPs = ::/0\nEndpoint = e:1\n[Peer]\nPublicKey = q\n";
    let once = config_to_fields(messy);
    let twice = config_to_fields(&fields_to_config(&once));
    assert_eq!(twice.private_key, once.private_key);
    assert_eq!(twice.address, once.address);
    assert_eq!(twice.peers.len(), once.peers.len());
    for (a, b) in twice.peers.iter().zip(once.peers.iter()) {
        assert_eq!(a.peer_public_key, b.peer_public_key);
        assert_eq!(a.allowed_ips, b.allowed_ips);
        assert_eq!(a.endpoint, b.endpoint);
    }
}

#[test]
fn documents_without_links_lose_all_markers() {
    let doc = "# **Title**\n> `quote` *x*\n- **a** b\n  * `c`\nplain ** text\n```\nkeep **this**\n```";
    for item in md_items(doc) {
        if item.kind != "code" {
            assert!(!item.text.contains('*') && !item.text.contains('`'), "{}", item.text);
        }
    }
}

#[test]
fn setting_a_key_leaves_that_line_and_is_idempotent() {
    let configs = [
        "",
        "[Interface]\nAddress = 10.0.0.1/24\n",
        "[INTERFACE]\nPrivateKey = old\n[Peer]\nPublicKey = p\n",
        "[Peer]\npublickey = p\nAllowedIPs = ::/0",
        "# no sections at all",
    ];
    for c in configs {
        let once = set_private_key(c, "NEWKEY=");
        assert!(once.lines().any(|l| l == "PrivateKey = NEWKEY="));
        assert_eq!(set_private_key(&once, "NEWKEY="), once);
        let once = set_psk(c, "PSK=");
        assert!(once.lines().any(|l| l == "PresharedKey = PSK="));
        assert_eq!(set_psk(&once, "PSK="), once);
    }
}

#[test]
fn log_view_is_never_blank() {
    for raw in ["", "\n", "a\nb", "Could not read the log: x", "(no recent log entries)"] {
        for filter in ["", "zzz", "A"] {
            for only in [None, Some("nobody")] {
                assert!(!log_lines(raw, filter, only).is_empty());
            }
        }
    }
}

#[test]
fn versions_are_totally_ordered() {
    let vs = ["1.2.3", "1.10.0", "0.9.9", "1.2.4", "2.0.0"];
    for a in vs {
        for b in vs {
            let (x, y) = (parse(a).unwrap(), parse(b).unwrap());
            if x != y {
                assert!((x > y) != (y > x));
            } else {
                assert!(!(x > y));
            }
        }
    }
}

#[test]
fn names_are_safe_and_unique() {
    for stem in ["..", "a b", "ключ", "very.long.file.name.conf", ".x", "-"] {
        assert!(safe(&sanitize_name(stem)), "{stem}");
    }
    let taken: Vec<Tunnel> =
        ["wg0", "wg0-2", "wg0-3"].iter().map(|n| Tunnel { name: n.to_string(), active: false }).collect();
    let n = unique_name("wg0", &taken);
    assert_eq!(n, "wg0-4");
    assert!(safe(&n) && !taken.iter().any(|t| t.name == n));
}

#[test]
fn listed_names_are_clean() {
    for t in list_tunnels("  a \n\n\t\nb\r\n c", "") {
        assert!(!t.name.is_empty());
        assert_eq!(t.name.trim(), t.name);
    }
}

#[test]
fn stripping_without_links_filters_markers() {
    for s in ["a*b`c**d", "``x`", "—*ü*", "", "plain"] {
        let expected: String = s.chars().filter(|&c| c != '*' && c != '`').collect();
        assert_eq!(strip_inline_md(s), expected);
    }
}

#[test]
fn sanitizing_defaults_and_settles() {
    assert_eq!(sanitize_name(""), "tunnel");
    assert_eq!(sanitize_name("...."), "tunnel");
    for s in ["my vpn", "x.conf", "abcdefghijklmnopqrstuvwxyz", "ü-ß"] {
        let r = sanitize_name(s);
        if !r.ends_with('.') {
            assert_eq!(sanitize_name(&r), r);
        }
    }
}

#[test]
fn one_peer_per_header() {
    assert_eq!(config_to_fields("[Interface]\n").peers.len(), 1);
    assert_eq!(config_to_fields("[Peer]\n[peer]\n  [PEER] x\n").peers.len(), 3);
}

#[test]
fn written_config_needs_a_peer() {
    let mut f = config_to_fields("[Interface]\nPrivateKey = k\n[Peer]\nPublicKey = p\n");
    assert!(form_representable(&fields_to_config(&f)));
    f.peers.clear();
    assert!(!form_representable(&fields_to_config(&f)));
}

#[test]
fn missing_interface_error_only_without_header() {
    let m = Err("Missing an [Interface] section.".to_string());
    assert_eq!(validate_config("PrivateKey = x\n"), m);
    assert_ne!(validate_config("  [interface]  \n"), m);
}

#[test]
fn items_follow_the_non_fence_lines() {
    let src = "a\n```\nb\n  ```x\nc\n```\n```\nd";
    let items = md_items(src);
    let kinds: Vec<&str> = items.iter().map(|i| i.kind.as_str()).collect();
    assert_eq!(kinds, vec!["normal", "code", "normal", "normal"]);
    assert_eq!(items[3].text, "d");
}
