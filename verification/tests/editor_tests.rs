use wireguard_gui::ui_bridge::editor_form::{config_to_fields, fields_to_config, form_representable, Fields, PeerFields};
use wireguard_gui::ui_bridge::editor_session::{
    add_peer, check_save, opens_in_form, merge_form, peer_label, peer_slot, remove_peer, save_failed, save_status,
    set_peer_psk, SaveOutcome,
};
use wireguard_gui::ui_bridge::key_lines::{has_peer_section, set_private_key, set_psk};

const KEY: &str = "ABCDEFGHIJKLMNOPQRSTUVWXYZabcdefghijklmnopq=";

fn single_peer() -> String {
    format!(
        "[Interface]\nPrivateKey = {KEY}\nAddress = 10.0.0.2/24\n\n[Peer]\nPublicKey = {KEY}\nAllowedIPs = 0.0.0.0/0\nEndpoint = vpn.example.com:51820\n"
    )
}

#[test]
fn representable_simple_config() {
    assert!(form_representable(&single_peer()));
}

#[test]
fn representable_multi_peer_config() {
    let two = format!(
        "[Interface]\nPrivateKey = {KEY}\nAddress = 10.0.0.2/24\n\n\
         [Peer]\nPublicKey = {KEY}\nAllowedIPs = 0.0.0.0/0\n\n\
         [Peer]\nPublicKey = {KEY}\nAllowedIPs = 10.1.0.0/24\n"
    );
    assert!(form_representable(&two));
    let fields = config_to_fields(&two);
    assert_eq!(fields.peers.len(), 2);
    assert_eq!(fields.peers[1].allowed_ips, "10.1.0.0/24");
    let rebuilt = fields_to_config(&fields);
    let reparsed = config_to_fields(&rebuilt);
    assert_eq!(reparsed.peers.len(), 2);
    assert_eq!(reparsed.peers[1].allowed_ips, "10.1.0.0/24");
}

#[test]
fn interface_only_is_not_form_representable() {
    let cfg = format!("[Interface]\nPrivateKey = {KEY}\nAddress = 10.0.0.2/32\n");
    assert!(!form_representable(&cfg));
}

#[test]
fn not_representable_when_scripts_or_unknown_routing_fields() {
    let scripted = format!(
        "[Interface]\nPrivateKey = {KEY}\nAddress = 10.0.0.2/24\nPostUp = iptables -A FORWARD -i %i -j ACCEPT\n\n[Peer]\nPublicKey = {KEY}\nAllowedIPs = 0.0.0.0/0\n"
    );
    assert!(!form_representable(&scripted));
    let table = format!(
        "[Interface]\nPrivateKey = {KEY}\nAddress = 10.0.0.2/24\nTable = off\n\n[Peer]\nPublicKey = {KEY}\nAllowedIPs = 0.0.0.0/0\n"
    );
    assert!(!form_representable(&table));
}

#[test]
fn fields_roundtrip_preserves_mapped_values() {
    let f = config_to_fields(&single_peer());
    assert_eq!(f.private_key, KEY);
    assert_eq!(f.address, "10.0.0.2/24");
    assert_eq!(f.peers.len(), 1);
    assert_eq!(f.peers[0].peer_public_key, KEY);
    assert_eq!(f.peers[0].allowed_ips, "0.0.0.0/0");
    assert_eq!(f.peers[0].endpoint, "vpn.example.com:51820");
    let rebuilt = fields_to_config(&f);
    assert!(form_representable(&rebuilt));
    let f2 = config_to_fields(&rebuilt);
    assert_eq!(f2.private_key, f.private_key);
    assert_eq!(f2.peers[0].endpoint, f.peers[0].endpoint);
    assert_eq!(f2.peers[0].allowed_ips, f.peers[0].allowed_ips);
}

#[test]
fn unknown_prefix_keys_are_not_mapped() {
    let cfg = format!(
        "[Interface]\nPrivateKey = {KEY}\nAddress = 10.0.0.2/24\nPrivateKeyFile = /tmp/x\n\n[Peer]\nPublicKey = {KEY}\nAllowedIPs = 0.0.0.0/0\nEndpointBackup = other:1\n"
    );
    assert!(!form_representable(&cfg));
    let f = config_to_fields(&cfg);
    assert_eq!(f.private_key, KEY);
    assert_eq!(f.peers[0].endpoint, "");
}

#[test]
fn comment_bearing_config_is_not_form_representable() {
    // The form can't round-trip comments, so such a config must stay raw.
    let cfg = format!(
        "[Interface]\n# my home server\nPrivateKey = {KEY}\nAddress = 10.0.0.2/24\n\n\
         [Peer]\nPublicKey = {KEY}\nAllowedIPs = 0.0.0.0/0\n"
    );
    assert!(!form_representable(&cfg));
}

#[test]
fn duplicate_mapped_keys_are_not_form_representable() {
    // Two Address lines (IPv4 + IPv6) would collapse to one on round-trip.
    let dup_addr = format!(
        "[Interface]\nPrivateKey = {KEY}\nAddress = 10.0.0.2/24\nAddress = fd00::2/64\n\n\
         [Peer]\nPublicKey = {KEY}\nAllowedIPs = 0.0.0.0/0\n"
    );
    assert!(!form_representable(&dup_addr));
    // Two AllowedIPs lines in one peer likewise.
    let dup_aips = format!(
        "[Interface]\nPrivateKey = {KEY}\nAddress = 10.0.0.2/24\n\n\
         [Peer]\nPublicKey = {KEY}\nAllowedIPs = 0.0.0.0/0\nAllowedIPs = ::/0\n"
    );
    assert!(!form_representable(&dup_aips));
    // But the same key appearing once per peer across two peers is fine.
    let two_peers = format!(
        "[Interface]\nPrivateKey = {KEY}\nAddress = 10.0.0.2/24\n\n\
         [Peer]\nPublicKey = {KEY}\nAllowedIPs = 0.0.0.0/0\n\n\
         [Peer]\nPublicKey = {KEY}\nAllowedIPs = 10.1.0.0/24\n"
    );
    assert!(form_representable(&two_peers));
}

// ---------------------------------------------------------------------------
// Key lines
// ---------------------------------------------------------------------------

#[test]
fn private_key_line_is_replaced_in_place() {
    let cfg = "[Interface]\n  privatekey=old\nAddress = 10.0.0.2/24\n";
    assert_eq!(
        set_private_key(cfg, "NEW"),
        "[Interface]\nPrivateKey = NEW\nAddress = 10.0.0.2/24\n"
    );
    // Only the first key line changes.
    let twice = "PrivateKey = a\nPrivateKey = b";
    assert_eq!(set_private_key(twice, "k"), "PrivateKey = k\nPrivateKey = b\n");
}

#[test]
fn private_key_without_equals_is_not_a_key_line() {
    let cfg = "[interface]\nPrivateKey\n";
    assert_eq!(set_private_key(cfg, "K"), "[interface]\nPrivateKey = K\nPrivateKey\n");
}

#[test]
fn private_key_is_inserted_after_interface_or_in_front() {
    let cfg = "# c\n[Interface]\nAddress = 1.2.3.4/32\n";
    assert_eq!(
        set_private_key(cfg, "K"),
        "# c\n[Interface]\nPrivateKey = K\nAddress = 1.2.3.4/32\n"
    );
    let bare = "[Peer]\nPublicKey = x";
    assert_eq!(set_private_key(bare, "K"), "[Interface]\nPrivateKey = K\n[Peer]\nPublicKey = x\n");
    assert_eq!(set_private_key("", "K"), "[Interface]\nPrivateKey = K\n");
}

#[test]
fn preshared_key_is_replaced_inserted_or_appended() {
    let with_psk = "[Peer]\nPublicKey = p\nPresharedKey = old\n";
    assert_eq!(set_psk(with_psk, "N"), "[Peer]\nPublicKey = p\nPresharedKey = N\n");
    let no_psk = "[Interface]\nPrivateKey = a\n[Peer]\n  publickey = p\nAllowedIPs = 0.0.0.0/0\n";
    assert_eq!(
        set_psk(no_psk, "N"),
        "[Interface]\nPrivateKey = a\n[Peer]\n  publickey = p\nPresharedKey = N\nAllowedIPs = 0.0.0.0/0\n"
    );
    let no_public = "[Peer]\nAllowedIPs = ::/0";
    assert_eq!(set_psk(no_public, "N"), "[Peer]\nAllowedIPs = ::/0\nPresharedKey = N\n");
}

#[test]
fn keys_are_matched_exactly() {
    // A `PrivateKeyFile` directive is no `PrivateKey` line: it is kept and
    // the key goes right after `[Interface]`.
    assert_eq!(
        set_private_key("[Interface]\nPrivateKeyFile = /x\n", "K"),
        "[Interface]\nPrivateKey = K\nPrivateKeyFile = /x\n"
    );
    // The key is the trimmed text before the first `=`, in any letter case.
    assert_eq!(set_private_key(" PRIVATEKEY \t= a=b", "K"), "PrivateKey = K\n");
    assert_eq!(
        set_psk("[Peer]\nPresharedKeyX = y\nPublicKeyFile = f\nPublicKey = p\n", "N"),
        "[Peer]\nPresharedKeyX = y\nPublicKeyFile = f\nPublicKey = p\nPresharedKey = N\n"
    );
    // A `PublicKey` line without `=` is no insertion point.
    assert_eq!(set_psk("[Peer]\nPublicKey\n", "N"), "[Peer]\nPublicKey\nPresharedKey = N\n");
}

#[test]
fn peer_section_detection() {
    assert!(has_peer_section("[Interface]\n[PEER]\n"));
    assert!(!has_peer_section("[Interface]\nPeer = x\n"));
}

// ---------------------------------------------------------------------------
// Editor session
// ---------------------------------------------------------------------------

fn peer(key: &str) -> PeerFields {
    PeerFields {
        peer_public_key: key.to_string(),
        preshared_key: String::new(),
        allowed_ips: "0.0.0.0/0".to_string(),
        endpoint: String::new(),
        keepalive: String::new(),
    }
}

fn form(private_key: &str, visible: PeerFields) -> Fields {
    Fields {
        private_key: private_key.to_string(),
        address: "10.9.0.1/24".to_string(),
        dns: String::new(),
        listen_port: String::new(),
        mtu: String::new(),
        peers: vec![visible],
    }
}

#[test]
fn peer_slots_and_labels() {
    assert_eq!(peer_slot(0, 3), 0);
    assert_eq!(peer_slot(2, 3), 2);
    assert_eq!(peer_slot(7, 3), 2);
    assert_eq!(peer_label(0, 2), "1 of 2");
    assert_eq!(peer_label(9, 12), "10 of 12");
}

#[test]
fn committing_the_form_keeps_hidden_peers() {
    let two = format!(
        "[Interface]\nPrivateKey = {KEY}\nAddress = 10.0.0.2/24\n\n\
         [Peer]\nPublicKey = first\nAllowedIPs = 0.0.0.0/0\n\n\
         [Peer]\nPublicKey = second\nAllowedIPs = 10.1.0.0/24\n"
    );
    let merged = merge_form(&two, &form("PK", peer("edited")), 1);
    assert_eq!(merged.private_key, "PK");
    assert_eq!(merged.address, "10.9.0.1/24");
    assert_eq!(merged.peers.len(), 2);
    assert_eq!(merged.peers[0].peer_public_key, "first");
    assert_eq!(merged.peers[1].peer_public_key, "edited");
    // A negative index means the first peer; a large one the last.
    assert_eq!(merge_form(&two, &form("PK", peer("x")), -3).peers[0].peer_public_key, "x");
    assert_eq!(merge_form(&two, &form("PK", peer("y")), 40).peers[1].peer_public_key, "y");
    // A config without peers gets one.
    let merged = merge_form("[Interface]\n", &form("PK", peer("z")), 0);
    assert_eq!(merged.peers.len(), 1);
    assert_eq!(merged.peers[0].peer_public_key, "z");
}

#[test]
fn adding_and_removing_peers() {
    let mut f = form("PK", peer("a"));
    let idx = add_peer(&mut f);
    assert_eq!(idx, 1);
    assert_eq!(f.peers.len(), 2);
    assert_eq!(f.peers[1].peer_public_key, "");
    // Removing the peer just added gives the fields back.
    assert_eq!(remove_peer(&mut f, 1), Some(0));
    assert_eq!(f.peers.len(), 1);
    assert_eq!(f.peers[0].peer_public_key, "a");
    // The only peer is never removed.
    assert_eq!(remove_peer(&mut f, 0), None);
    assert_eq!(f.peers.len(), 1);
    // Removing a middle peer shows the one that took its place.
    let mut g = form("PK", peer("a"));
    g.peers.push(peer("b"));
    g.peers.push(peer("c"));
    assert_eq!(remove_peer(&mut g, 1), Some(1));
    assert_eq!(g.peers[1].peer_public_key, "c");
}

#[test]
fn preshared_key_goes_to_the_visible_peer() {
    let mut f = form("PK", peer("a"));
    f.peers.push(peer("b"));
    assert_eq!(set_peer_psk(&mut f, 5, "PSK".to_string()), 1);
    assert_eq!(f.peers[1].preshared_key, "PSK");
    assert_eq!(f.peers[0].preshared_key, "");
    let mut empty = form("PK", peer("a"));
    empty.peers.clear();
    assert_eq!(set_peer_psk(&mut empty, 0, "Q".to_string()), 0);
    assert_eq!(empty.peers.len(), 1);
    assert_eq!(empty.peers[0].preshared_key, "Q");
}

#[test]
fn save_decisions_and_messages() {
    assert_eq!(check_save("", "home", false), Ok(false));
    assert_eq!(check_save("", "home", true), Err("A tunnel named “home” already exists.".to_string()));
    assert_eq!(check_save("home", "work", false), Ok(true));
    assert!(check_save("home", "work", true).is_err());
    // Saving under the same name may overwrite.
    assert_eq!(check_save("home", "home", true), Ok(false));
    assert_eq!(save_status("home", "work", &SaveOutcome::Renamed), "Renamed home → work");
    assert_eq!(save_status("", "vpn", &SaveOutcome::Activated(Ok(()))), "Created and activated vpn");
    assert_eq!(
        save_status("", "vpn", &SaveOutcome::Activated(Err("boom".to_string()))),
        "Created vpn, but activation failed: boom"
    );
    assert_eq!(save_status("vpn", "vpn", &SaveOutcome::AppliedLive(Ok(()))), "Saved vpn (applied live)");
    assert_eq!(
        save_status("vpn", "vpn", &SaveOutcome::AppliedLive(Err("x".to_string()))),
        "Saved vpn — reconnect to apply Address/DNS/MTU/routes"
    );
    assert_eq!(save_status("", "vpn", &SaveOutcome::Saved), "Created vpn");
    assert_eq!(save_status("vpn", "vpn", &SaveOutcome::Saved), "Saved vpn");
    assert_eq!(save_failed(true, "denied"), "Rename failed: denied");
    assert_eq!(save_failed(false, "denied"), "Save failed: denied");
}

#[test]
fn editor_opens_in_form_only_for_new_representable_configs() {
    assert!(opens_in_form(true, &single_peer()));
    assert!(!opens_in_form(false, &single_peer()));
    let scripted = format!("{}PostUp = x\n", single_peer());
    assert!(!opens_in_form(true, &scripted));
}
