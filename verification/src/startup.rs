//! Start-up and desktop decisions of the app: what a command-line argument
//! asks for, whether to prefer XWayland, the single-instance socket's name,
//! and which clipboard tools to try.
use vstd::prelude::*;
use crate::text::{chars_eq, chars_of, dec, push_dec, push_str};
use crate::update::CURRENT;

verus! {

/// What the app does for its first command-line argument.
pub enum CliAction {
    /// No argument: open the window.
    Launch,
    /// Print this text and exit successfully.
    Print(String),
    /// Print this error and exit with status 2.
    Fail(String),
}

/// The `--version` text.
pub open spec fn version_text() -> Seq<char> {
    "wireguard-gui "@ + CURRENT@
}

/// The `--help` text.
pub open spec fn help_text() -> Seq<char> {
    "wireguard-gui "@ + CURRENT@ + " - a desktop GUI for managing WireGuard tunnels\n\nUsage: wireguard-gui            launch the app\n       wireguard-gui --version    print the version\n       wireguard-gui --help       show this help"@
}

/// What an argument asks for: `-V`/`--version` and `-h`/`--help` print
/// their text, any other argument is refused.
pub open spec fn cli_spec(arg: Option<Seq<char>>) -> (bool, Seq<char>, bool) {
    match arg {
        None => (true, Seq::empty(), true),
        Some(a) => if a == "-V"@ || a == "--version"@ {
            (false, version_text(), true)
        } else if a == "-h"@ || a == "--help"@ {
            (false, help_text(), true)
        } else {
            (false, "wireguard-gui: unknown argument '"@ + a + "' (try --help)"@, false)
        },
    }
}

/// The action's view: whether it launches, the text, whether it succeeds.
pub open spec fn action_view(a: CliAction) -> (bool, Seq<char>, bool) {
    match a {
        CliAction::Launch => (true, Seq::empty(), true),
        CliAction::Print(t) => (false, t@, true),
        CliAction::Fail(t) => (false, t@, false),
    }
}

fn is(a: &[char], lit: &str) -> (r: bool)
    ensures
        r == (a@ == lit@),
{
    let l = chars_of(lit);
    chars_eq(a, l.as_slice())
}

/// Decides what the first command-line argument asks for (see
/// [`cli_spec`]).
pub fn cli_action(arg: Option<&str>) -> (r: CliAction)
    ensures
        action_view(r) == cli_spec(match arg {
            Some(a) => Some(a@),
            None => None,
        }),
{
    match arg {
        None => CliAction::Launch,
        Some(a) => {
            let v = chars_of(a);
            if is(v.as_slice(), "-V") || is(v.as_slice(), "--version") {
                let mut t = String::new();
                push_str(&mut t, "wireguard-gui ");
                push_str(&mut t, CURRENT);
                CliAction::Print(t)
            } else if is(v.as_slice(), "-h") || is(v.as_slice(), "--help") {
                let mut t = String::new();
                push_str(&mut t, "wireguard-gui ");
                push_str(&mut t, CURRENT);
                push_str(
                    &mut t,
                    " - a desktop GUI for managing WireGuard tunnels\n\nUsage: wireguard-gui            launch the app\n       wireguard-gui --version    print the version\n       wireguard-gui --help       show this help",
                );
                CliAction::Print(t)
            } else {
                let mut t = String::new();
                push_str(&mut t, "wireguard-gui: unknown argument '");
                push_str(&mut t, a);
                push_str(&mut t, "' (try --help)");
                CliAction::Fail(t)
            }
        },
    }
}

/// Whether to leave native Wayland for XWayland: on the proprietary NVIDIA
/// driver, under Wayland with XWayland available, unless forced to stay.
pub open spec fn xwayland_wanted(force_wayland: bool, on_wayland: bool, have_xwayland: bool, nvidia: bool) -> bool {
    !force_wayland && on_wayland && have_xwayland && nvidia
}

/// Decides whether to prefer XWayland (see [`xwayland_wanted`]).
pub fn prefer_xwayland(force_wayland: bool, on_wayland: bool, have_xwayland: bool, nvidia: bool) -> (r: bool)
    ensures
        r == xwayland_wanted(force_wayland, on_wayland, have_xwayland, nvidia),
{
    !force_wayland && on_wayland && have_xwayland && nvidia
}

/// The abstract socket name that keeps one instance per user.
pub open spec fn instance_socket_name(uid: nat) -> Seq<char> {
    "wireguard-gui-"@ + dec(uid)
}

/// The single-instance socket name for user `uid` (see
/// [`instance_socket_name`]).
pub fn instance_socket(uid: u32) -> (r: String)
    ensures
        r@ == instance_socket_name(uid as nat),
{
    let mut s = String::new();
    push_str(&mut s, "wireguard-gui-");
    push_dec(&mut s, uid as u64);
    s
}

/// The clipboard command lines to try in turn, program first: under
/// Wayland `wl-copy` comes first, else the X11 tools do.
pub open spec fn clipboard_tools(wayland: bool) -> Seq<Seq<Seq<char>>> {
    let wl = seq!["wl-copy"@];
    let xclip = seq!["xclip"@, "-selection"@, "clipboard"@];
    let xsel = seq!["xsel"@, "--clipboard"@, "--input"@];
    if wayland {
        seq![wl, xclip, xsel]
    } else {
        seq![xclip, xsel, wl]
    }
}

pub open spec fn argv_views(v: Seq<Vec<String>>) -> Seq<Seq<Seq<char>>> {
    Seq::new(v.len(), |i: int| crate::text::string_views(v[i]@))
}

fn argv(words: &[&str]) -> (r: Vec<String>)
    ensures
        crate::text::string_views(r@) == Seq::new(words@.len(), |i: int| words@[i]@),
{
    let mut v: Vec<String> = Vec::new();
    let mut i: usize = 0;
    while i < words.len()
        invariant
            i <= words@.len(),
            crate::text::string_views(v@) == Seq::new(i as nat, |j: int| words@[j]@),
        decreases words@.len() - i,
    {
        let w = crate::text::string_of(chars_of(words[i]).as_slice());
        proof {
            crate::text::lemma_string_views_push(v@, w);
        }
        v.push(w);
        assert(crate::text::string_views(v@) =~= Seq::new((i + 1) as nat, |j: int| words@[j]@));
        i += 1;
    }
    v
}

/// The clipboard command lines to try (see [`clipboard_tools`]).
pub fn clipboard_commands(wayland: bool) -> (r: Vec<Vec<String>>)
    ensures
        argv_views(r@) == clipboard_tools(wayland),
{
    let wl = argv(&["wl-copy"]);
    let xclip = argv(&["xclip", "-selection", "clipboard"]);
    let xsel = argv(&["xsel", "--clipboard", "--input"]);
    let ghost (a, b, c) = (crate::text::string_views(wl@), crate::text::string_views(xclip@), crate::text::string_views(xsel@));
    assert(a =~= seq!["wl-copy"@]);
    assert(b =~= seq!["xclip"@, "-selection"@, "clipboard"@]);
    assert(c =~= seq!["xsel"@, "--clipboard"@, "--input"@]);
    let mut v: Vec<Vec<String>> = Vec::new();
    if wayland {
        v.push(wl);
        v.push(xclip);
        v.push(xsel);
        assert(argv_views(v@) =~= seq![a, b, c]);
    } else {
        v.push(xclip);
        v.push(xsel);
        v.push(wl);
        assert(argv_views(v@) =~= seq![b, c, a]);
    }
    v
}

} // verus!
