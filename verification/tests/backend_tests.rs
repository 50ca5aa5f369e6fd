use wireguard_gui::backend::{
    helper_override_allowed,
    choose_escalation, helper_argv, helper_failure, helper_location, Escalation, LOCAL_LIB_HELPER,
    SYSTEM_LIB_HELPER,
    fmt_bytes, fmt_handshake, fmt_transfer, get_detail, list_tunnels, parse_config, parse_dump,
    private_key_to_derive, sanitize_name, tunnel_exists, unique_name, validate_config, Tunnel,
};

const KEY: &str = "ABCDEFGHIJKLMNOPQRSTUVWXYZabcdefghijklmnopq=";
const KEY2: &str = "bcdefghijklmnopqrstuvwxyz0123456789+/ABCDEF=";

fn valid() -> String {
    format!(
        "[Interface]\nPrivateKey = {KEY}\nAddress = 10.0.0.2/24, fd00::2/64\nListenPort = 51820\n\n\
         [Peer]\nPublicKey = {KEY2}\nAllowedIPs = 0.0.0.0/0, ::/0\nEndpoint = [::1]:51820\nPersistentKeepalive = 25\n"
    )
}

fn tunnels(list: &[(&str, bool)]) -> Vec<Tunnel> {
    list.iter().map(|(n, a)| Tunnel { name: n.to_string(), active: *a }).collect()
}

#[test]
fn a_complete_config_validates() {
    assert_eq!(validate_config(&valid()), Ok(()));
}

#[test]
fn each_validation_error() {
    let err = |s: &str| validate_config(s).unwrap_err();
    assert_eq!(err("[Peer]\n"), "Missing an [Interface] section.");
    assert_eq!(err("[interface]\nAddress = 10.0.0.1/24\n"), "[Interface] is missing PrivateKey.");
    assert_eq!(err("[Interface]\nPrivateKey =\n"), "[Interface] is missing PrivateKey.");
    assert_eq!(
        err("[Interface]\nPrivateKey = short=\n"),
        "PrivateKey is not a valid WireGuard key (expected 44-char base64)."
    );
    assert_eq!(err(&format!("[Interface]\nPrivateKey = {KEY}\n")), "[Interface] is missing Address.");
    assert_eq!(
        err(&format!("[Interface]\nPrivateKey = {KEY}\nAddress = 10.0.0.1/24, host\n")),
        "Address “host” is not a valid IP/CIDR."
    );
    assert_eq!(
        err(&format!("[Interface]\nPrivateKey = {KEY}\nAddress = 10.0.0.1/24\nListenPort = 70000\n")),
        "ListenPort “70000” is not a valid port."
    );
    assert_eq!(
        err(&format!("[Interface]\nPrivateKey = {KEY}\nAddress = 10.0.0.1/24\n")),
        "At least one [Peer] section is required."
    );
    let base = format!("[Interface]\nPrivateKey = {KEY}\nAddress = 10.0.0.1/24\n[Peer]\n");
    assert_eq!(err(&base), "Peer 1 is missing PublicKey.");
    assert_eq!(err(&format!("{base}PublicKey = nope\n")), "Peer 1 has an invalid PublicKey.");
    assert_eq!(
        err(&format!("{base}PublicKey = {KEY2}\nPresharedKey = bad\n")),
        "Peer 1 has an invalid PresharedKey."
    );
    assert_eq!(err(&format!("{base}PublicKey = {KEY2}\n")), "Peer 1 is missing AllowedIPs.");
    assert_eq!(
        err(&format!("{base}PublicKey = {KEY2}\nAllowedIPs = 10.0.0.0/8,x\n")),
        "Peer 1: AllowedIPs “x” is not valid."
    );
    assert_eq!(
        err(&format!("{base}PublicKey = {KEY2}\nAllowedIPs = 10.0.0.0/8\nEndpoint = host\n")),
        "Peer 1: Endpoint “host” must be host:port."
    );
    assert_eq!(
        err(&format!("{base}PublicKey = {KEY2}\nAllowedIPs = 10.0.0.0/8\nPersistentKeepalive = often\n")),
        "Peer 1: PersistentKeepalive “often” must be a number."
    );
    let two = format!("{base}PublicKey = {KEY2}\nAllowedIPs = 10.0.0.0/8\n[Peer]\nPublicKey = {KEY}\n");
    assert_eq!(err(&two), "Peer 2 is missing AllowedIPs.");
}

#[test]
fn endpoint_and_port_edges() {
    let base = format!("[Interface]\nPrivateKey = {KEY}\nAddress = 10.0.0.1/24\n[Peer]\nPublicKey = {KEY2}\nAllowedIPs = ::/0\n");
    assert!(validate_config(&format!("{base}Endpoint = vpn.example.com:65535\n")).is_ok());
    assert!(validate_config(&format!("{base}Endpoint = vpn.example.com:0\n")).is_err());
    assert!(validate_config(&format!("{base}Endpoint = :51820\n")).is_err());
    assert!(validate_config(&format!("{base}Endpoint = h:65536\n")).is_err());
    let with_port = |p: &str| {
        validate_config(&format!(
            "[Interface]\nPrivateKey = {KEY}\nAddress = 10.0.0.1/24\nListenPort = {p}\n[Peer]\nPublicKey = {KEY2}\nAllowedIPs = ::/0\n"
        ))
    };
    assert!(with_port("0").is_ok());
    assert!(with_port("65535").is_ok());
    assert!(with_port("65536").is_err());
    assert!(with_port("-1").is_err());
}

#[test]
fn parses_config_sections_and_keys() {
    let c = parse_config(
        "# comment\n[Interface]\nprivatekey = a=b=\nADDRESS=10.0.0.1/24\nDNS = 1.1.1.1\nListenPort = 1\n[Other]\nAddress = x\n[ peer ]\nPublicKey = p\nEndpoint = e:1\n",
    );
    assert_eq!(c.private_key.as_deref(), Some("a=b="));
    assert_eq!(c.address.as_deref(), Some("10.0.0.1/24"));
    assert_eq!(c.dns.as_deref(), Some("1.1.1.1"));
    assert_eq!(c.listen_port.as_deref(), Some("1"));
    assert_eq!(c.peers.len(), 1);
    assert_eq!(c.peers[0].public_key, "p");
    assert_eq!(c.peers[0].endpoint, "e:1");
}

#[test]
fn lists_tunnels_with_their_state() {
    let ts = list_tunnels("home\n  work  \n\nlab\n", "work\tlab2\n");
    let got: Vec<(String, bool)> = ts.into_iter().map(|t| (t.name, t.active)).collect();
    assert_eq!(
        got,
        vec![("home".to_string(), false), ("work".to_string(), true), ("lab".to_string(), false)]
    );
    assert!(list_tunnels("", "x").is_empty());
}

#[test]
fn tunnel_names() {
    let ts = tunnels(&[("home", false), ("home-2", true)]);
    assert!(tunnel_exists(&ts, "home"));
    assert!(!tunnel_exists(&ts, "hom"));
    assert_eq!(sanitize_name("my vpn (1).conf"), "my_vpn__1_.conf");
    assert_eq!(sanitize_name("..."), "tunnel");
    assert_eq!(sanitize_name(".hidden."), "hidden");
    assert_eq!(sanitize_name("abcdefghijklmnopqrstuvwxyz"), "abcdefghijklmno");
    assert_eq!(sanitize_name("ü"), "_");
    assert_eq!(unique_name("office", &ts), "office");
    assert_eq!(unique_name("home", &ts), "home-3");
    let long = tunnels(&[("abcdefghijklmno", false)]);
    assert_eq!(unique_name("abcdefghijklmnopq", &long), "abcdefghijklm-2");
    let mut all: Vec<Tunnel> = tunnels(&[("t", false)]);
    for n in 2..1000 {
        all.push(Tunnel { name: format!("t-{n}"), active: false });
    }
    assert_eq!(unique_name("t", &all), "t");
}

#[test]
fn parses_the_live_dump() {
    let dump = "priv\tIFACEPUB\t51820\toff\n\
                PEER1\t(none)\t1.2.3.4:51820\t10.0.0.0/24\t1700000000\t2048\t1024\t25\n\
                short\tline\n\
                PEER2\t(none)\t(none)\t10.1.0.0/24\tx\t5\t6\toff\n";
    let d = parse_dump(dump).unwrap();
    assert_eq!(d.iface_public, "IFACEPUB");
    assert_eq!(d.listen_port, "51820");
    assert_eq!(d.peers.len(), 2);
    assert_eq!(d.peers[0].public_key, "PEER1");
    assert_eq!(d.peers[0].endpoint, "1.2.3.4:51820");
    assert_eq!(d.peers[0].allowed_ips, "10.0.0.0/24");
    assert_eq!(d.peers[0].latest_handshake, 1700000000);
    assert_eq!((d.peers[0].rx, d.peers[0].tx), (2048, 1024));
    assert_eq!(d.peers[1].latest_handshake, 0);
    assert!(parse_dump("").is_none());
    assert!(parse_dump("a\tb\n").is_none());
}

#[test]
fn handshake_ages() {
    assert_eq!(fmt_handshake(0, 100), "");
    assert_eq!(fmt_handshake(100, 100), "now");
    assert_eq!(fmt_handshake(100, 50), "now");
    assert_eq!(fmt_handshake(100, 101), "1 second ago");
    assert_eq!(fmt_handshake(100, 159), "59 seconds ago");
    assert_eq!(fmt_handshake(100, 160), "1 minute ago");
    assert_eq!(fmt_handshake(100, 220), "2 minutes ago");
    assert_eq!(fmt_handshake(100, 3700), "1 hour ago");
    assert_eq!(fmt_handshake(100, 7300), "2 hours ago");
    assert_eq!(fmt_handshake(100, 100 + 3 * 86400), "3 days ago");
}

fn float_bytes(b: u64) -> String {
    const KIB: f64 = 1024.0;
    let b = b as f64;
    if b < KIB {
        format!("{b:.0} B")
    } else if b < KIB * KIB {
        format!("{:.2} KiB", b / KIB)
    } else if b < KIB * KIB * KIB {
        format!("{:.2} MiB", b / (KIB * KIB))
    } else if b < KIB * KIB * KIB * KIB {
        format!("{:.2} GiB", b / (KIB * KIB * KIB))
    } else {
        format!("{:.2} TiB", b / (KIB * KIB * KIB * KIB))
    }
}

#[test]
fn byte_counts_match_float_formatting() {
    assert_eq!(fmt_bytes(0), "0 B");
    assert_eq!(fmt_bytes(1023), "1023 B");
    assert_eq!(fmt_bytes(1024), "1.00 KiB");
    assert_eq!(fmt_bytes(1536), "1.50 KiB");
    assert_eq!(fmt_bytes(1048576), "1.00 MiB");
    let mut samples: Vec<u64> = vec![
        1, 1000, 1024, 1025, 1034, 1035, 1039, 1044, 10_485, 1_048_575, 1_048_576, 5_000_000,
        1_073_741_823, 1_073_741_824, 123_456_789_012, 1_099_511_627_775, 1_099_511_627_776,
        9_007_199_254_740_993, u64::MAX - 1, u64::MAX,
    ];
    let mut x: u64 = 0x9E37_79B9_7F4A_7C15;
    for _ in 0..2000 {
        x ^= x << 13;
        x ^= x >> 7;
        x ^= x << 17;
        samples.push(x >> (x % 64));
    }
    for k in 0..64u32 {
        samples.push(1u64 << k);
        samples.push((1u64 << k).wrapping_add(1));
        // Exact ties at the second decimal: k/8 of a unit.
        samples.push(1024 + 10 * (k as u64 % 13));
    }
    for b in samples {
        assert_eq!(fmt_bytes(b), float_bytes(b), "bytes {b}");
    }
}

#[test]
fn transfer_text() {
    assert_eq!(fmt_transfer(0, 0), "");
    assert_eq!(fmt_transfer(2048, 0), "2.00 KiB received, 0 B sent");
}

#[test]
fn detail_merges_config_and_live_state() {
    let cfg = format!(
        "[Interface]\nPrivateKey = {KEY}\nAddress = 10.0.0.2/24\nDNS = 1.1.1.1\nListenPort = 1111\n\n\
         [Peer]\nPublicKey = PEER1\nPresharedKey = x\nEndpoint = cfg:1\nPersistentKeepalive = 25\n\n\
         [Peer]\nPublicKey = OTHER\nAllowedIPs = 10.9.0.0/16\n"
    );
    let dump = "priv\tIFACEPUB\t51820\toff\nPEER1\t(none)\t1.2.3.4:51820\t10.0.0.0/24\t1000\t2048\t0\t25\n";
    assert_eq!(private_key_to_derive(&cfg, dump), None);
    let d = get_detail("home", &cfg, dump, None, Some(1030));
    assert_eq!(d.name, "home");
    assert!(d.active);
    assert_eq!(d.public_key, "IFACEPUB");
    assert_eq!(d.listen_port, "51820");
    assert_eq!(d.addresses, "10.0.0.2/24");
    assert_eq!(d.dns, "1.1.1.1");
    assert_eq!(d.peers.len(), 2);
    let p = &d.peers[0];
    assert_eq!(p.public_key, "PEER1");
    assert!(p.preshared);
    assert_eq!(p.allowed_ips, "10.0.0.0/24");
    assert_eq!(p.endpoint, "1.2.3.4:51820");
    assert_eq!(p.keepalive, "25");
    assert_eq!(p.latest_handshake, "30 seconds ago");
    assert_eq!(p.transfer, "2.00 KiB received, 0 B sent");
    let q = &d.peers[1];
    assert!(!q.preshared);
    assert_eq!(q.allowed_ips, "10.9.0.0/16");
    assert_eq!(q.latest_handshake, "");
    assert_eq!(q.transfer, "");

    // A tunnel that is down: the public key comes from the private key.
    assert_eq!(private_key_to_derive(&cfg, ""), Some(KEY.to_string()));
    let down = get_detail("home", &cfg, "", Some("DERIVED".to_string()), None);
    assert!(!down.active);
    assert_eq!(down.public_key, "DERIVED");
    assert_eq!(down.listen_port, "1111");
    assert_eq!(down.peers[0].endpoint, "cfg:1");
    assert_eq!(down.peers[0].allowed_ips, "");
}

#[test]
fn helper_command_lines() {
    let args = vec!["read".to_string(), "home".to_string()];
    let h = "/usr/lib/wireguard-gui/wg-helper";
    assert!(matches!(choose_escalation(true, false), Escalation::Direct));
    assert!(matches!(choose_escalation(false, true), Escalation::Sudo));
    assert!(matches!(choose_escalation(false, false), Escalation::Pkexec));
    assert_eq!(helper_argv(&Escalation::Direct, h, &args), vec![h, "read", "home"]);
    assert_eq!(helper_argv(&Escalation::Sudo, h, &args), vec!["sudo", "-n", h, "read", "home"]);
    assert_eq!(helper_argv(&Escalation::Pkexec, h, &Vec::new()), vec!["pkexec", h]);
    assert_eq!(
        helper_failure("wg-helper", &args, "  no such tunnel\n"),
        "wg-helper read home: no such tunnel"
    );
    assert_eq!(helper_location(Some("/opt/h".to_string()), true, true, "dev".to_string()), "/opt/h");
    assert_eq!(
        helper_location(None, true, true, "dev".to_string()),
        "/usr/local/lib/wireguard-gui/wg-helper"
    );
    assert_eq!(helper_location(None, false, true, "dev".to_string()), "/usr/lib/wireguard-gui/wg-helper");
    assert_eq!(helper_location(None, false, false, "dev".to_string()), "dev");
}

#[test]
fn installed_helper_paths() {
    assert_eq!(LOCAL_LIB_HELPER, "/usr/local/lib/wireguard-gui/wg-helper");
    assert_eq!(SYSTEM_LIB_HELPER, "/usr/lib/wireguard-gui/wg-helper");
}

#[test]
fn helper_override_guard() {
    assert!(helper_override_allowed(false, false, "rel/path", false, true));
    assert!(!helper_override_allowed(true, false, "/usr/lib/h", true, false));
    assert!(helper_override_allowed(true, true, "/usr/lib/h", true, false));
    assert!(!helper_override_allowed(true, true, "usr/lib/h", true, false));
    assert!(!helper_override_allowed(true, true, "/usr/lib/h", false, false));
    assert!(!helper_override_allowed(true, true, "/usr/lib/h", true, true));
    assert!(!helper_override_allowed(true, true, "", true, false));
}
