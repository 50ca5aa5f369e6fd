use wireguard_gui::update::{
    arch_token, install_route, pkexec_install_argv, release_assets, sudo_prefix, InstallRoute,
    LATEST_RELEASE_URL,
    check, extract_json_string, is_newer, latest_tag, parse, tag_from_json, CURRENT};

#[test]
fn extract_json_string_basic() {
    let j = r#"{"name":"v1.2.3","tag_name":"v1.8.0","draft":false}"#;
    assert_eq!(extract_json_string(j, "tag_name").as_deref(), Some("v1.8.0"));
}

#[test]
fn extract_json_string_whitespace() {
    let j = "{ \"tag_name\" :  \"1.9.0\" }";
    assert_eq!(extract_json_string(j, "tag_name").as_deref(), Some("1.9.0"));
}

#[test]
fn extract_json_string_missing_key() {
    let j = r#"{"name":"x"}"#;
    assert_eq!(extract_json_string(j, "tag_name"), None);
}

#[test]
fn extract_json_string_rejects_escapes() {
    // A backslash escape inside the value is refused (not a plain tag).
    // Literal JSON: {"tag_name":"v1\"2"}
    let j = "{\"tag_name\":\"v1\\\"2\"}";
    assert_eq!(extract_json_string(j, "tag_name"), None);
}

#[test]
fn parse_valid_triple() {
    assert_eq!(parse("v1.2.3"), Some((1, 2, 3)));
    assert_eq!(parse("10.0.7"), Some((10, 0, 7)));
}

#[test]
fn parse_rejects_four_components() {
    assert_eq!(parse("1.2.3.4"), None);
}

#[test]
fn parse_rejects_non_numeric() {
    assert_eq!(parse("1.2.x"), None);
    assert_eq!(parse("abc"), None);
}

#[test]
fn is_newer_compares() {
    // CURRENT is the compiled-in version; compare against synthetic values.
    let (a, b, c) = parse(CURRENT).unwrap();
    let older = format!("{a}.{b}.{}", c.saturating_sub(1).min(c));
    // A clearly-higher major is always newer.
    assert_eq!(is_newer(&format!("{}.0.0", a + 1)), Some(true));
    // Equal is not newer.
    assert_eq!(is_newer(CURRENT), Some(false));
    // Unparseable -> None.
    assert_eq!(is_newer("not.a.version"), None);
    // Lower patch (when CURRENT has a nonzero patch) is not newer.
    if c > 0 {
        assert_eq!(is_newer(&older), Some(false));
    }
}

#[test]
fn json_string_edge_cases() {
    // An empty value and one over 32 bytes are refused.
    assert_eq!(extract_json_string(r#"{"tag_name":""}"#, "tag_name"), None);
    let long = format!("{{\"tag_name\":\"{}\"}}", "1".repeat(33));
    assert_eq!(extract_json_string(&long, "tag_name"), None);
    let ok32 = format!("{{\"tag_name\":\"{}\"}}", "1".repeat(32));
    assert_eq!(extract_json_string(&ok32, "tag_name"), Some("1".repeat(32)));
    // 11 three-byte characters are 33 bytes.
    let wide = format!("{{\"tag_name\":\"{}\"}}", "—".repeat(11));
    assert_eq!(extract_json_string(&wide, "tag_name"), None);
    // No colon, or a non-string value.
    assert_eq!(extract_json_string(r#"{"tag_name" "x"}"#, "tag_name"), None);
    assert_eq!(extract_json_string(r#"{"tag_name": 5}"#, "tag_name"), None);
    // The first occurrence of the key decides.
    assert_eq!(extract_json_string(r#"{"tag_name":1,"tag_name":"v2"}"#, "tag_name"), None);
    // An unterminated string runs to the end of the text.
    assert_eq!(extract_json_string("{\"tag_name\":\"v3", "tag_name"), Some("v3".to_string()));
}

#[test]
fn versions_and_comparison() {
    assert_eq!(parse(" v1.2.3 "), Some((1, 2, 3)));
    assert_eq!(parse("vv1.2.3"), Some((1, 2, 3)));
    assert_eq!(parse("1.2"), None);
    assert_eq!(parse("1..3"), None);
    assert_eq!(parse("+1.2.3"), Some((1, 2, 3)));
    assert_eq!(parse("1.2.18446744073709551615"), Some((1, 2, u64::MAX)));
    assert_eq!(parse("1.2.18446744073709551616"), None);
    assert_eq!(CURRENT, "1.6.2");
    assert_eq!(is_newer("1.6.3"), Some(true));
    assert_eq!(is_newer("1.7.0"), Some(true));
    assert_eq!(is_newer("1.6.1"), Some(false));
    assert_eq!(is_newer("0.99.99"), Some(false));
}

#[test]
fn check_offers_only_newer_versions() {
    let info = check("1.10.0".to_string()).unwrap();
    assert_eq!(info.current, "1.6.2");
    assert_eq!(info.latest, "1.10.0");
    assert!(check("1.6.2".to_string()).is_none());
    assert!(check("garbage".to_string()).is_none());
}

#[test]
fn tags_from_release_json() {
    assert_eq!(tag_from_json(r#"{"tag_name":"v1.8.0"}"#), Ok("1.8.0".to_string()));
    assert_eq!(tag_from_json(r#"{"tag_name":"vv2.0.0"}"#), Ok("2.0.0".to_string()));
    assert_eq!(tag_from_json("{}"), Err("no tag_name in release JSON".to_string()));
    // The response body goes through lossy UTF-8 decoding first.
    assert_eq!(latest_tag(br#"{"tag_name":"v1.9.1","x":1}"#), Ok("1.9.1".to_string()));
    assert_eq!(latest_tag(b"{\"tag_name\":\"v1.2.3\",\"n\":\"\xff\"}"), Ok("1.2.3".to_string()));
    assert!(latest_tag(b"\xff\xfe").is_err());
}

#[test]
fn release_asset_names_and_install_routes() {
    assert_eq!(arch_token(true), "aarch64");
    assert_eq!(arch_token(false), "x86_64");
    let a = release_assets("1.7.0", "x86_64");
    assert_eq!(a.tarball, "wireguard-gui-1.7.0-x86_64-linux.tar.gz");
    assert_eq!(a.dir, "wireguard-gui-1.7.0-x86_64-linux");
    assert_eq!(a.base_url, "https://github.com/JamilleJung/wireguard-gui/releases/download/v1.7.0");
    assert_eq!(LATEST_RELEASE_URL, "https://api.github.com/repos/JamilleJung/wireguard-gui/releases/latest");
    assert!(matches!(install_route(true, false), Ok(InstallRoute::Direct)));
    assert!(matches!(install_route(false, true), Ok(InstallRoute::Pkexec)));
    match install_route(false, false) {
        Err(e) => assert_eq!(
            e,
            "cannot escalate privileges automatically — run install.sh manually to finish the update"
        ),
        Ok(_) => panic!("no route expected"),
    }
    assert_eq!(
        pkexec_install_argv("alice", "/tmp/x/install.sh"),
        vec!["pkexec", "env", "WG_REAL_USER=alice", "WG_USE_PREBUILT=1", "bash", "/tmp/x/install.sh"]
    );
    assert_eq!(sudo_prefix(true, true), Some(Vec::new()));
    assert_eq!(sudo_prefix(false, true), Some(vec!["sudo".to_string(), "-n".to_string()]));
    assert_eq!(sudo_prefix(false, false), None);
}
