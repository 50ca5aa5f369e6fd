use wireguard_gui::startup::{clipboard_commands, cli_action, instance_socket, prefer_xwayland, CliAction};

fn printed(a: CliAction) -> Option<String> {
    match a {
        CliAction::Print(t) => Some(t),
        _ => None,
    }
}

#[test]
fn command_line_arguments() {
    assert!(matches!(cli_action(None), CliAction::Launch));
    assert_eq!(printed(cli_action(Some("-V"))), Some("wireguard-gui 1.6.2".to_string()));
    assert_eq!(printed(cli_action(Some("--version"))), Some("wireguard-gui 1.6.2".to_string()));
    let help = printed(cli_action(Some("--help"))).unwrap();
    assert_eq!(
        help,
        "wireguard-gui 1.6.2 - a desktop GUI for managing WireGuard tunnels\n\n\
         Usage: wireguard-gui            launch the app\n       \
         wireguard-gui --version    print the version\n       \
         wireguard-gui --help       show this help"
    );
    assert_eq!(printed(cli_action(Some("-h"))), Some(help));
    match cli_action(Some("--frobnicate")) {
        CliAction::Fail(t) => assert_eq!(t, "wireguard-gui: unknown argument '--frobnicate' (try --help)"),
        _ => panic!("expected a refusal"),
    }
}

#[test]
fn xwayland_and_instance_socket() {
    assert!(prefer_xwayland(false, true, true, true));
    assert!(!prefer_xwayland(true, true, true, true));
    assert!(!prefer_xwayland(false, false, true, true));
    assert!(!prefer_xwayland(false, true, false, true));
    assert!(!prefer_xwayland(false, true, true, false));
    assert_eq!(instance_socket(1000), "wireguard-gui-1000");
    assert_eq!(instance_socket(0), "wireguard-gui-0");
}

#[test]
fn clipboard_tool_order() {
    let w = clipboard_commands(true);
    assert_eq!(w, vec![vec!["wl-copy"], vec!["xclip", "-selection", "clipboard"], vec!["xsel", "--clipboard", "--input"]]);
    let x = clipboard_commands(false);
    assert_eq!(x, vec![vec!["xclip", "-selection", "clipboard"], vec!["xsel", "--clipboard", "--input"], vec!["wl-copy"]]);
}
