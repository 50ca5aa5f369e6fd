//! Tunnel configs and live status: parsing a `wg-quick` config and the
//! `wg show <iface> dump` output, validating a config before it is saved,
//! naming tunnels, and building the detail view that merges both sources.
use vstd::prelude::*;
use crate::text::{
    contains_char, dec, digit_char, first_pos, is_ascii_alnum, is_hex_digit, last_pos, lemma_last_pos,
    parse_uint, parse_unsigned, split_words, words, push_chars, push_dec, push_str, split_char, split_on, chars_eq, chars_of, copy_range, find_char, has_char, lemma_first_pos, lines, lower_seq,
    lower_vec, split_lines, split_once, string_of, trim, trimmed, views, join_strings, join_with,
    string_views, lemma_string_views_push, is_ws, lemma_trim_start_noop, lemma_trim_end_noop,
};

verus! {

// ---------------------------------------------------------------------------
// Running the privileged helper
// ---------------------------------------------------------------------------

/// How the helper is run with root rights.
pub enum Escalation {
    /// Already root: the helper runs as is.
    Direct,
    /// Through `sudo -n`, allowed without a password by the sudoers drop-in.
    Sudo,
    /// Through `pkexec`, which asks for a password.
    Pkexec,
}

/// The way to gain root: none when already root, else `sudo -n` when it
/// works without a password, else `pkexec`.
pub open spec fn escalation_for(is_root: bool, sudo_works: bool) -> Escalation {
    if is_root {
        Escalation::Direct
    } else if sudo_works {
        Escalation::Sudo
    } else {
        Escalation::Pkexec
    }
}

/// Decides how the helper gains root (see [`escalation_for`]).
pub fn choose_escalation(is_root: bool, sudo_works: bool) -> (r: Escalation)
    ensures
        r == escalation_for(is_root, sudo_works),
{
    if is_root {
        Escalation::Direct
    } else if sudo_works {
        Escalation::Sudo
    } else {
        Escalation::Pkexec
    }
}

/// The command line that runs the helper with `args`, program first.
pub open spec fn helper_command(esc: Escalation, helper: Seq<char>, args: Seq<Seq<char>>) -> Seq<Seq<char>> {
    match esc {
        Escalation::Direct => seq![helper] + args,
        Escalation::Sudo => seq!["sudo"@, "-n"@, helper] + args,
        Escalation::Pkexec => seq!["pkexec"@, helper] + args,
    }
}

fn owned(s: &str) -> (r: String)
    ensures
        r@ == s@,
{
    string_of(chars_of(s).as_slice())
}

/// The command line that runs the helper (see [`helper_command`]).
pub fn helper_argv(esc: &Escalation, helper: &str, args: &Vec<String>) -> (r: Vec<String>)
    ensures
        string_views(r@) == helper_command(*esc, helper@, string_views(args@)),
{
    let mut v: Vec<String> = Vec::new();
    match esc {
        Escalation::Direct => {},
        Escalation::Sudo => {
            let a = owned("sudo");
            proof {
                lemma_string_views_push(v@, a);
            }
            v.push(a);
            let b = owned("-n");
            proof {
                lemma_string_views_push(v@, b);
            }
            v.push(b);
        },
        Escalation::Pkexec => {
            let a = owned("pkexec");
            proof {
                lemma_string_views_push(v@, a);
            }
            v.push(a);
        },
    }
    let h = owned(helper);
    proof {
        lemma_string_views_push(v@, h);
    }
    v.push(h);
    let ghost head = string_views(v@);
    let mut i: usize = 0;
    while i < args.len()
        invariant
            i <= args@.len(),
            string_views(v@) == head + string_views(args@).subrange(0, i as int),
        decreases args@.len() - i,
    {
        let a = owned(args[i].as_str());
        proof {
            lemma_string_views_push(v@, a);
        }
        v.push(a);
        assert(string_views(v@) =~= head + string_views(args@).subrange(0, i + 1));
        i += 1;
    }
    assert(string_views(args@).subrange(0, args@.len() as int) =~= string_views(args@));
    assert(string_views(v@) =~= helper_command(*esc, helper@, string_views(args@)));
    v
}

/// The error when the helper fails: the helper, its arguments and what it
/// printed on stderr, trimmed.
pub open spec fn helper_failure_text(helper: Seq<char>, args: Seq<Seq<char>>, stderr: Seq<char>) -> Seq<char> {
    helper + " "@ + join_with(args, " "@) + ": "@ + trim(stderr)
}

/// The error when the helper fails (see [`helper_failure_text`]).
pub fn helper_failure(helper: &str, args: &Vec<String>, stderr: &str) -> (r: String)
    ensures
        r@ == helper_failure_text(helper@, string_views(args@), stderr@),
{
    let mut m = String::new();
    push_str(&mut m, helper);
    push_str(&mut m, " ");
    let j = join_strings(args, " ");
    push_str(&mut m, j.as_str());
    push_str(&mut m, ": ");
    let e = chars_of(stderr);
    let t = trimmed(e.as_slice());
    push_chars(&mut m, t.as_slice());
    m
}

/// Whether a `$WG_HELPER` override may be used: always in a debug build; in
/// a release build only when `WG_ALLOW_UNSAFE_HELPER=1` is set and the path
/// is absolute and names a root-owned file that is not world-writable.
pub open spec fn override_allowed(
    release: bool,
    allow_unsafe: bool,
    path: Seq<char>,
    root_owned: bool,
    world_writable: bool,
) -> bool {
    !release || (allow_unsafe && path.len() > 0 && path[0] == '/' && root_owned && !world_writable)
}

/// Decides whether the helper-path override is honoured (see
/// [`override_allowed`]); an override that is not is ignored.
pub fn helper_override_allowed(
    release: bool,
    allow_unsafe: bool,
    path: &str,
    root_owned: bool,
    world_writable: bool,
) -> (r: bool)
    ensures
        r == override_allowed(release, allow_unsafe, path@, root_owned, world_writable),
{
    let p = chars_of(path);
    let absolute = p.len() > 0 && p[0] == '/';
    !release || (allow_unsafe && absolute && root_owned && !world_writable)
}

/// Where an installed helper lives under `/usr/local`.
pub const LOCAL_LIB_HELPER: &'static str = "/usr/local/lib/wireguard-gui/wg-helper";

/// Where a packaged helper lives.
pub const SYSTEM_LIB_HELPER: &'static str = "/usr/lib/wireguard-gui/wg-helper";

/// Where the helper is taken from: `$WG_HELPER` when set, else the first
/// installed copy (under `/usr/local/lib`, then `/usr/lib`), else the copy
/// in the source tree.
pub open spec fn helper_location_for(
    env: Option<Seq<char>>,
    local_lib: bool,
    system_lib: bool,
    in_tree: Seq<char>,
) -> Seq<char> {
    match env {
        Some(p) => p,
        None => if local_lib {
            LOCAL_LIB_HELPER@
        } else if system_lib {
            SYSTEM_LIB_HELPER@
        } else {
            in_tree
        },
    }
}

/// Picks the helper's path (see [`helper_location_for`]); the flags say
/// whether each installed copy exists.
pub fn helper_location(env: Option<String>, local_lib: bool, system_lib: bool, in_tree: String) -> (r: String)
    ensures
        r@ == helper_location_for(opt_view(env), local_lib, system_lib, in_tree@),
{
    match env {
        Some(p) => p,
        None => if local_lib {
            owned(LOCAL_LIB_HELPER)
        } else if system_lib {
            owned(SYSTEM_LIB_HELPER)
        } else {
            in_tree
        },
    }
}

// ---------------------------------------------------------------------------
// Parsing a config
// ---------------------------------------------------------------------------

/// The peer settings that the detail view and validation read.
pub struct ParsedPeer {
    pub public_key: String,
    pub preshared_key: String,
    pub allowed_ips: String,
    pub endpoint: String,
    pub keepalive: String,
}

/// The interface settings and peers that the detail view and validation read.
pub struct ParsedConfig {
    pub private_key: Option<String>,
    pub address: Option<String>,
    pub dns: Option<String>,
    pub listen_port: Option<String>,
    pub peers: Vec<ParsedPeer>,
}

pub struct ParsedPeerView {
    pub public_key: Seq<char>,
    pub preshared_key: Seq<char>,
    pub allowed_ips: Seq<char>,
    pub endpoint: Seq<char>,
    pub keepalive: Seq<char>,
}

pub struct ParsedConfigView {
    pub private_key: Option<Seq<char>>,
    pub address: Option<Seq<char>>,
    pub dns: Option<Seq<char>>,
    pub listen_port: Option<Seq<char>>,
    pub peers: Seq<ParsedPeerView>,
}

pub open spec fn opt_view(o: Option<String>) -> Option<Seq<char>> {
    match o {
        Some(s) => Some(s@),
        None => None,
    }
}

impl View for ParsedPeer {
    type V = ParsedPeerView;

    open spec fn view(&self) -> ParsedPeerView {
        ParsedPeerView {
            public_key: self.public_key@,
            preshared_key: self.preshared_key@,
            allowed_ips: self.allowed_ips@,
            endpoint: self.endpoint@,
            keepalive: self.keepalive@,
        }
    }
}

pub open spec fn parsed_peer_views(s: Seq<ParsedPeer>) -> Seq<ParsedPeerView> {
    Seq::new(s.len(), |i: int| s[i]@)
}

impl View for ParsedConfig {
    type V = ParsedConfigView;

    open spec fn view(&self) -> ParsedConfigView {
        ParsedConfigView {
            private_key: opt_view(self.private_key),
            address: opt_view(self.address),
            dns: opt_view(self.dns),
            listen_port: opt_view(self.listen_port),
            peers: parsed_peer_views(self.peers@),
        }
    }
}

pub open spec fn empty_parsed_peer() -> ParsedPeerView {
    ParsedPeerView {
        public_key: Seq::empty(),
        preshared_key: Seq::empty(),
        allowed_ips: Seq::empty(),
        endpoint: Seq::empty(),
        keepalive: Seq::empty(),
    }
}

pub open spec fn empty_parsed() -> ParsedConfigView {
    ParsedConfigView {
        private_key: None,
        address: None,
        dns: None,
        listen_port: None,
        peers: Seq::empty(),
    }
}

/// The section a config line belongs to.
pub enum CfgSection {
    Outside,
    Interface,
    Peer,
}

pub open spec fn is_bracket(c: char) -> bool {
    c == '[' || c == ']'
}

/// `s` without leading `[` and `]` characters.
pub open spec fn strip_brackets_start(s: Seq<char>) -> Seq<char>
    decreases s.len(),
{
    if s.len() > 0 && is_bracket(s[0]) {
        strip_brackets_start(s.drop_first())
    } else {
        s
    }
}

/// `s` without trailing `[` and `]` characters.
pub open spec fn strip_brackets_end(s: Seq<char>) -> Seq<char>
    decreases s.len(),
{
    if s.len() > 0 && is_bracket(s.last()) {
        strip_brackets_end(s.drop_last())
    } else {
        s
    }
}

/// The name inside a section header: brackets stripped from both ends, then
/// whitespace.
pub open spec fn header_name(line: Seq<char>) -> Seq<char> {
    trim(strip_brackets_end(strip_brackets_start(line)))
}

pub open spec fn assign_parsed_iface(c: ParsedConfigView, key: Seq<char>, v: Seq<char>) -> ParsedConfigView {
    if key == "privatekey"@ {
        ParsedConfigView { private_key: Some(v), ..c }
    } else if key == "address"@ {
        ParsedConfigView { address: Some(v), ..c }
    } else if key == "dns"@ {
        ParsedConfigView { dns: Some(v), ..c }
    } else if key == "listenport"@ {
        ParsedConfigView { listen_port: Some(v), ..c }
    } else {
        c
    }
}

pub open spec fn assign_parsed_peer(p: ParsedPeerView, key: Seq<char>, v: Seq<char>) -> ParsedPeerView {
    if key == "publickey"@ {
        ParsedPeerView { public_key: v, ..p }
    } else if key == "presharedkey"@ {
        ParsedPeerView { preshared_key: v, ..p }
    } else if key == "allowedips"@ {
        ParsedPeerView { allowed_ips: v, ..p }
    } else if key == "endpoint"@ {
        ParsedPeerView { endpoint: v, ..p }
    } else if key == "persistentkeepalive"@ {
        ParsedPeerView { keepalive: v, ..p }
    } else {
        p
    }
}

/// One line of a config. Blank lines and `#` comments are skipped; a line
/// starting with `[` opens a section (`Peer` adds a peer; names compare
/// without regard to ASCII case); otherwise a `key = value` line sets the
/// named setting of the interface or of the newest peer, and anything else is
/// ignored.
pub open spec fn cfg_step(st: (ParsedConfigView, CfgSection), raw: Seq<char>) -> (ParsedConfigView, CfgSection) {
    let line = trim(raw);
    if line.len() == 0 || line[0] == '#' {
        st
    } else if line[0] == '[' {
        let name = lower_seq(header_name(line));
        if name == "peer"@ {
            (ParsedConfigView { peers: st.0.peers.push(empty_parsed_peer()), ..st.0 }, CfgSection::Peer)
        } else if name == "interface"@ {
            (st.0, CfgSection::Interface)
        } else {
            (st.0, CfgSection::Outside)
        }
    } else {
        match split_once(line, '=') {
            None => st,
            Some((k, v)) => {
                let key = lower_seq(trim(k));
                let value = trim(v);
                match st.1 {
                    CfgSection::Interface => (assign_parsed_iface(st.0, key, value), st.1),
                    CfgSection::Peer => if st.0.peers.len() > 0 {
                        (
                            ParsedConfigView {
                                peers: st.0.peers.update(
                                    st.0.peers.len() - 1,
                                    assign_parsed_peer(st.0.peers.last(), key, value),
                                ),
                                ..st.0
                            },
                            st.1,
                        )
                    } else {
                        st
                    },
                    CfgSection::Outside => st,
                }
            },
        }
    }
}

pub open spec fn cfg_run(ls: Seq<Seq<char>>) -> (ParsedConfigView, CfgSection)
    decreases ls.len(),
{
    if ls.len() == 0 {
        (empty_parsed(), CfgSection::Outside)
    } else {
        cfg_step(cfg_run(ls.drop_last()), ls.last())
    }
}

/// The settings that `parse_config` reads from `text`.
pub open spec fn parsed(text: Seq<char>) -> ParsedConfigView {
    cfg_run(lines(text)).0
}

/// The key names and section names that the parser recognises.
struct CfgWords {
    peer: Vec<char>,
    interface: Vec<char>,
    privatekey: Vec<char>,
    address: Vec<char>,
    dns: Vec<char>,
    listenport: Vec<char>,
    publickey: Vec<char>,
    presharedkey: Vec<char>,
    allowedips: Vec<char>,
    endpoint: Vec<char>,
    persistentkeepalive: Vec<char>,
}

impl CfgWords {
    spec fn wf(&self) -> bool {
        &&& self.peer@ == "peer"@
        &&& self.interface@ == "interface"@
        &&& self.privatekey@ == "privatekey"@
        &&& self.address@ == "address"@
        &&& self.dns@ == "dns"@
        &&& self.listenport@ == "listenport"@
        &&& self.publickey@ == "publickey"@
        &&& self.presharedkey@ == "presharedkey"@
        &&& self.allowedips@ == "allowedips"@
        &&& self.endpoint@ == "endpoint"@
        &&& self.persistentkeepalive@ == "persistentkeepalive"@
    }

    fn new() -> (r: CfgWords)
        ensures
            r.wf(),
    {
        CfgWords {
            peer: chars_of("peer"),
            interface: chars_of("interface"),
            privatekey: chars_of("privatekey"),
            address: chars_of("address"),
            dns: chars_of("dns"),
            listenport: chars_of("listenport"),
            publickey: chars_of("publickey"),
            presharedkey: chars_of("presharedkey"),
            allowedips: chars_of("allowedips"),
            endpoint: chars_of("endpoint"),
            persistentkeepalive: chars_of("persistentkeepalive"),
        }
    }
}

fn header_name_exec(line: &[char]) -> (r: Vec<char>)
    ensures
        r@ == header_name(line@),
{
    let mut lo: usize = 0;
    assert(line@.subrange(0, line@.len() as int) =~= line@);
    while lo < line.len() && (line[lo] == '[' || line[lo] == ']')
        invariant
            lo <= line@.len(),
            strip_brackets_start(line@) == strip_brackets_start(line@.subrange(lo as int, line@.len() as int)),
        decreases line@.len() - lo,
    {
        let ghost t = line@.subrange(lo as int, line@.len() as int);
        assert(t.drop_first() =~= line@.subrange(lo + 1, line@.len() as int));
        lo += 1;
    }
    let ghost a = line@.subrange(lo as int, line@.len() as int);
    assert(strip_brackets_start(a) == a);
    let mut hi: usize = line.len();
    while hi > lo && (line[hi - 1] == '[' || line[hi - 1] == ']')
        invariant
            lo <= hi <= line@.len(),
            a == line@.subrange(lo as int, line@.len() as int),
            strip_brackets_end(a) == strip_brackets_end(line@.subrange(lo as int, hi as int)),
        decreases hi,
    {
        let ghost t = line@.subrange(lo as int, hi as int);
        assert(t.drop_last() =~= line@.subrange(lo as int, hi - 1));
        hi -= 1;
    }
    assert(line@.subrange(lo as int, line@.len() as int).subrange(0, (line@.len() - lo) as int)
        =~= line@.subrange(lo as int, line@.len() as int));
    let inner = copy_range(line, lo, hi);
    assert(strip_brackets_end(inner@) == inner@);
    trimmed(inner.as_slice())
}

fn set_parsed_iface(c: &mut ParsedConfig, key: &[char], v: &[char], w: &CfgWords)
    requires
        w.wf(),
    ensures
        final(c)@ == assign_parsed_iface(old(c)@, key@, v@),
{
    if chars_eq(key, w.privatekey.as_slice()) {
        c.private_key = Some(string_of(v));
    } else if chars_eq(key, w.address.as_slice()) {
        c.address = Some(string_of(v));
    } else if chars_eq(key, w.dns.as_slice()) {
        c.dns = Some(string_of(v));
    } else if chars_eq(key, w.listenport.as_slice()) {
        c.listen_port = Some(string_of(v));
    }
}

fn set_parsed_peer(p: &mut ParsedPeer, key: &[char], v: &[char], w: &CfgWords)
    requires
        w.wf(),
    ensures
        final(p)@ == assign_parsed_peer(old(p)@, key@, v@),
{
    if chars_eq(key, w.publickey.as_slice()) {
        p.public_key = string_of(v);
    } else if chars_eq(key, w.presharedkey.as_slice()) {
        p.preshared_key = string_of(v);
    } else if chars_eq(key, w.allowedips.as_slice()) {
        p.allowed_ips = string_of(v);
    } else if chars_eq(key, w.endpoint.as_slice()) {
        p.endpoint = string_of(v);
    } else if chars_eq(key, w.persistentkeepalive.as_slice()) {
        p.keepalive = string_of(v);
    }
}

pub proof fn lemma_parsed_peer_views_push(s: Seq<ParsedPeer>, p: ParsedPeer)
    ensures
        parsed_peer_views(s.push(p)) == parsed_peer_views(s).push(p@),
{
    assert(parsed_peer_views(s.push(p)) =~= parsed_peer_views(s).push(p@));
}

pub proof fn lemma_parsed_peer_views_drop_last(s: Seq<ParsedPeer>)
    requires
        s.len() > 0,
    ensures
        parsed_peer_views(s.drop_last()) == parsed_peer_views(s).drop_last(),
{
    assert(parsed_peer_views(s.drop_last()) =~= parsed_peer_views(s).drop_last());
}

fn new_parsed_peer() -> (r: ParsedPeer)
    ensures
        r@ == empty_parsed_peer(),
{
    ParsedPeer {
        public_key: String::new(),
        preshared_key: String::new(),
        allowed_ips: String::new(),
        endpoint: String::new(),
        keepalive: String::new(),
    }
}

/// Read the interface settings and peers of a tunnel config.
pub fn parse_config(text: &str) -> (r: ParsedConfig)
    ensures
        r@ == parsed(text@),
{
    let w = CfgWords::new();
    let cs = chars_of(text);
    let ls = split_lines(cs.as_slice());
    let mut cfg = ParsedConfig {
        private_key: None,
        address: None,
        dns: None,
        listen_port: None,
        peers: Vec::new(),
    };
    assert(cfg@.peers =~= Seq::<ParsedPeerView>::empty());
    let mut section = CfgSection::Outside;
    let mut i: usize = 0;
    assert(views(ls@).subrange(0, 0) =~= Seq::<Seq<char>>::empty());
    while i < ls.len()
        invariant
            w.wf(),
            i <= ls@.len(),
            views(ls@) == lines(text@),
            (cfg@, section) == cfg_run(views(ls@).subrange(0, i as int)),
        decreases ls@.len() - i,
    {
        let ghost pre = views(ls@).subrange(0, i as int);
        assert(views(ls@).subrange(0, i + 1).drop_last() =~= pre);
        assert(views(ls@).subrange(0, i + 1).last() == ls@[i as int]@);
        let line = trimmed(ls[i].as_slice());
        if line.len() == 0 || line[0] == '#' {
        } else if line[0] == '[' {
            let hn = header_name_exec(line.as_slice());
            let name = lower_vec(hn.as_slice());
            if chars_eq(name.as_slice(), w.peer.as_slice()) {
                let p = new_parsed_peer();
                proof {
                    lemma_parsed_peer_views_push(cfg.peers@, p);
                }
                cfg.peers.push(p);
                section = CfgSection::Peer;
            } else if chars_eq(name.as_slice(), w.interface.as_slice()) {
                section = CfgSection::Interface;
            } else {
                section = CfgSection::Outside;
            }
        } else {
            let p = find_char(line.as_slice(), '=');
            proof {
                lemma_first_pos(line@, '=');
            }
            if p < line.len() {
                let k = copy_range(line.as_slice(), 0, p);
                let kt = trimmed(k.as_slice());
                let key = lower_vec(kt.as_slice());
                let v = copy_range(line.as_slice(), p + 1, line.len());
                let value = trimmed(v.as_slice());
                match section {
                    CfgSection::Interface => {
                        set_parsed_iface(&mut cfg, key.as_slice(), value.as_slice(), &w);
                    },
                    CfgSection::Peer => {
                        if cfg.peers.len() > 0 {
                            let ghost before = cfg.peers@;
                            let mut pp = cfg.peers.pop().unwrap();
                            proof {
                                lemma_parsed_peer_views_drop_last(before);
                            }
                            set_parsed_peer(&mut pp, key.as_slice(), value.as_slice(), &w);
                            proof {
                                lemma_parsed_peer_views_push(cfg.peers@, pp);
                            }
                            cfg.peers.push(pp);
                            assert(cfg@.peers =~= parsed_peer_views(before).update(
                                parsed_peer_views(before).len() - 1,
                                assign_parsed_peer(parsed_peer_views(before).last(), key@, value@),
                            ));
                        }
                    },
                    CfgSection::Outside => {},
                }
            }
        }
        i += 1;
    }
    assert(views(ls@).subrange(0, ls@.len() as int) =~= views(ls@));
    cfg
}

// ---------------------------------------------------------------------------
// Checks on single values
// ---------------------------------------------------------------------------

pub open spec fn is_key_char(c: char) -> bool {
    is_ascii_alnum(c) || c == '+' || c == '/'
}

/// A WireGuard key: base64 of 32 bytes, i.e. 43 base64 characters and one
/// `=` of padding (44 characters, which are 44 bytes), after trimming.
pub open spec fn wg_key(s: Seq<char>) -> bool {
    let t = trim(s);
    &&& t.len() == 44
    &&& t[43] == '='
    &&& forall|i: int| 0 <= i < 43 ==> is_key_char(#[trigger] t[i])
}

/// `host:port` after trimming, split at the last `:` (so a bracketed IPv6
/// host works): a non-empty host and a port from 1 to 65535.
pub open spec fn endpoint_ok(s: Seq<char>) -> bool {
    let t = trim(s);
    let p = last_pos(t, ':');
    &&& p > 0
    &&& match parse_uint(t.subrange(p + 1, t.len() as int), 0xffff_ffff) {
        Some(v) => 1 <= v <= 65535,
        None => false,
    }
}

pub open spec fn inet_char(c: char) -> bool {
    is_hex_digit(c) || c == '.' || c == ':'
}

/// A loose address check on the part before any `/`: non-empty, holding a
/// `.` or a `:`, and made of hex digits, `.` and `:` only.
pub open spec fn inet_like(s: Seq<char>) -> bool {
    let t = trim(s);
    let a = t.subrange(0, first_pos(t, '/'));
    &&& a.len() > 0
    &&& (contains_char(a, '.') || contains_char(a, ':'))
    &&& forall|i: int| 0 <= i < a.len() ==> inet_char(#[trigger] a[i])
}

fn is_wg_key(s: &[char]) -> (r: bool)
    ensures
        r == wg_key(s@),
{
    let t = trimmed(s);
    if t.len() != 44 || t[43] != '=' {
        return false;
    }
    let mut i: usize = 0;
    while i < 43
        invariant
            t@ == trim(s@),
            t@.len() == 44,
            i <= 43,
            forall|j: int| 0 <= j < i ==> is_key_char(#[trigger] t@[j]),
        decreases 43 - i,
    {
        let c = t[i];
        if !(('a' <= c && c <= 'z') || ('A' <= c && c <= 'Z') || ('0' <= c && c <= '9') || c == '+' || c == '/') {
            assert(!is_key_char(t@[i as int]));
            return false;
        }
        i += 1;
    }
    true
}

fn find_last_char(s: &[char], c: char) -> (r: Option<usize>)
    ensures
        r matches Some(p) ==> p as int == last_pos(s@, c),
        r is None ==> last_pos(s@, c) == -1,
{
    proof {
        lemma_last_pos(s@, c);
    }
    let mut i: usize = s.len();
    while i > 0
        invariant
            i <= s@.len(),
            forall|j: int| i <= j < s@.len() ==> s@[j] != c,
            -1 <= last_pos(s@, c) < s@.len(),
            forall|j: int| last_pos(s@, c) < j < s@.len() ==> s@[j] != c,
            last_pos(s@, c) >= 0 ==> s@[last_pos(s@, c)] == c,
        decreases i,
    {
        if s[i - 1] == c {
            return Some(i - 1);
        }
        i -= 1;
    }
    None
}

fn is_endpoint(s: &[char]) -> (r: bool)
    ensures
        r == endpoint_ok(s@),
{
    let t = trimmed(s);
    match find_last_char(t.as_slice(), ':') {
        None => false,
        Some(p) => {
            proof {
                lemma_last_pos(t@, ':');
            }
            if p == 0 {
                return false;
            }
            let port = copy_range(t.as_slice(), p + 1, t.len());
            match parse_unsigned(port.as_slice(), 0xffff_ffff) {
                Some(v) => 1 <= v && v <= 65535,
                None => false,
            }
        },
    }
}

fn looks_like_inet(s: &[char]) -> (r: bool)
    ensures
        r == inet_like(s@),
{
    let t = trimmed(s);
    let p = find_char(t.as_slice(), '/');
    proof {
        lemma_first_pos(t@, '/');
    }
    let a = copy_range(t.as_slice(), 0, p);
    assert(a@ == trim(s@).subrange(0, first_pos(trim(s@), '/')));
    if a.len() == 0 {
        return false;
    }
    if !(has_char(a.as_slice(), '.') || has_char(a.as_slice(), ':')) {
        return false;
    }
    let mut i: usize = 0;
    while i < a.len()
        invariant
            i <= a@.len(),
            a@ == trim(s@).subrange(0, first_pos(trim(s@), '/')),
            forall|j: int| 0 <= j < i ==> inet_char(#[trigger] a@[j]),
        decreases a@.len() - i,
    {
        let c = a[i];
        if !(('0' <= c && c <= '9') || ('a' <= c && c <= 'f') || ('A' <= c && c <= 'F') || c == '.' || c == ':') {
            assert(!inet_char(a@[i as int]));
            return false;
        }
        i += 1;
    }
    true
}

// ---------------------------------------------------------------------------
// Config validation
// ---------------------------------------------------------------------------

/// Whether some line, trimmed, is `[Interface]` in any ASCII case.
pub open spec fn has_iface_line(text: Seq<char>) -> bool {
    exists|i: int| 0 <= i < lines(text).len() && lower_seq(trim(#[trigger] lines(text)[i])) == "[interface]"@
}

/// The first comma-separated piece that does not look like an address.
pub open spec fn first_bad_inet(pieces: Seq<Seq<char>>) -> Option<Seq<char>>
    decreases pieces.len(),
{
    if pieces.len() == 0 {
        None
    } else if !inet_like(pieces[0]) {
        Some(pieces[0])
    } else {
        first_bad_inet(pieces.drop_first())
    }
}

pub open spec fn bad_port(port: Seq<char>) -> bool {
    match parse_uint(port, 0xffff_ffff) {
        Some(v) => v > 65535,
        None => true,
    }
}

/// What is wrong with peer number `n`, if anything.
pub open spec fn peer_error(p: ParsedPeerView, n: nat) -> Option<Seq<char>> {
    if p.public_key.len() == 0 {
        Some("Peer "@ + dec(n) + " is missing PublicKey."@)
    } else if !wg_key(p.public_key) {
        Some("Peer "@ + dec(n) + " has an invalid PublicKey."@)
    } else if p.preshared_key.len() > 0 && !wg_key(p.preshared_key) {
        Some("Peer "@ + dec(n) + " has an invalid PresharedKey."@)
    } else if trim(p.allowed_ips).len() == 0 {
        Some("Peer "@ + dec(n) + " is missing AllowedIPs."@)
    } else if first_bad_inet(split_on(p.allowed_ips, ',')) is Some {
        Some(
            "Peer "@ + dec(n) + ": AllowedIPs “"@ + trim(
                first_bad_inet(split_on(p.allowed_ips, ',')).unwrap(),
            ) + "” is not valid."@,
        )
    } else if p.endpoint.len() > 0 && !endpoint_ok(p.endpoint) {
        Some("Peer "@ + dec(n) + ": Endpoint “"@ + p.endpoint + "” must be host:port."@)
    } else if p.keepalive.len() > 0 && parse_uint(p.keepalive, 0xffff_ffff) is None {
        Some("Peer "@ + dec(n) + ": PersistentKeepalive “"@ + p.keepalive + "” must be a number."@)
    } else {
        None
    }
}

/// The first error among the peers `ps`, numbered from `n`.
pub open spec fn peers_error(ps: Seq<ParsedPeerView>, n: nat) -> Option<Seq<char>>
    decreases ps.len(),
{
    if ps.len() == 0 {
        None
    } else {
        match peer_error(ps[0], n) {
            Some(e) => Some(e),
            None => peers_error(ps.drop_first(), n + 1),
        }
    }
}

/// The message that `validate_config` refuses `text` with, or `None` when it
/// accepts it. The checks run in this order and the first failure wins.
pub open spec fn config_error(text: Seq<char>) -> Option<Seq<char>> {
    let c = parsed(text);
    if !has_iface_line(text) {
        Some("Missing an [Interface] section."@)
    } else if c.private_key is None || c.private_key.unwrap().len() == 0 {
        Some("[Interface] is missing PrivateKey."@)
    } else if !wg_key(c.private_key.unwrap()) {
        Some("PrivateKey is not a valid WireGuard key (expected 44-char base64)."@)
    } else if c.address is None || c.address.unwrap().len() == 0 {
        Some("[Interface] is missing Address."@)
    } else if first_bad_inet(split_on(c.address.unwrap(), ',')) is Some {
        Some(
            "Address “"@ + trim(first_bad_inet(split_on(c.address.unwrap(), ',')).unwrap())
                + "” is not a valid IP/CIDR."@,
        )
    } else if c.listen_port is Some && c.listen_port.unwrap().len() > 0 && bad_port(
        c.listen_port.unwrap(),
    ) {
        Some("ListenPort “"@ + c.listen_port.unwrap() + "” is not a valid port."@)
    } else if c.peers.len() == 0 {
        Some("At least one [Peer] section is required."@)
    } else {
        peers_error(c.peers, 1)
    }
}

fn first_bad_inet_exec(pieces: &Vec<Vec<char>>) -> (r: Option<usize>)
    ensures
        r matches Some(i) ==> i < pieces@.len() && first_bad_inet(views(pieces@)) == Some(pieces@[i as int]@),
        r is None ==> first_bad_inet(views(pieces@)) is None,
{
    let mut i: usize = 0;
    assert(views(pieces@).subrange(0, pieces@.len() as int) =~= views(pieces@));
    while i < pieces.len()
        invariant
            i <= pieces@.len(),
            first_bad_inet(views(pieces@)) == first_bad_inet(views(pieces@).subrange(i as int, pieces@.len() as int)),
        decreases pieces@.len() - i,
    {
        let ghost rest = views(pieces@).subrange(i as int, pieces@.len() as int);
        assert(rest[0] == pieces@[i as int]@);
        assert(rest.drop_first() =~= views(pieces@).subrange(i + 1, pieces@.len() as int));
        if !looks_like_inet(pieces[i].as_slice()) {
            return Some(i);
        }
        i += 1;
    }
    assert(views(pieces@).subrange(i as int, pieces@.len() as int) =~= Seq::<Seq<char>>::empty());
    None
}

fn peer_prefix(n: u64) -> (r: String)
    ensures
        r@ == "Peer "@ + dec(n as nat),
{
    let mut m = String::new();
    push_str(&mut m, "Peer ");
    push_dec(&mut m, n);
    m
}

fn check_peer(p: &ParsedPeer, n: u64) -> (r: Option<String>)
    ensures
        r matches Some(e) ==> peer_error(p@, n as nat) == Some(e@),
        r is None ==> peer_error(p@, n as nat) is None,
{
    let pk = chars_of(p.public_key.as_str());
    let psk = chars_of(p.preshared_key.as_str());
    let aips = chars_of(p.allowed_ips.as_str());
    let ep = chars_of(p.endpoint.as_str());
    let ka = chars_of(p.keepalive.as_str());
    if pk.len() == 0 {
        let mut m = peer_prefix(n);
        push_str(&mut m, " is missing PublicKey.");
        return Some(m);
    }
    if !is_wg_key(pk.as_slice()) {
        let mut m = peer_prefix(n);
        push_str(&mut m, " has an invalid PublicKey.");
        return Some(m);
    }
    if psk.len() > 0 && !is_wg_key(psk.as_slice()) {
        let mut m = peer_prefix(n);
        push_str(&mut m, " has an invalid PresharedKey.");
        return Some(m);
    }
    let at = trimmed(aips.as_slice());
    if at.len() == 0 {
        let mut m = peer_prefix(n);
        push_str(&mut m, " is missing AllowedIPs.");
        return Some(m);
    }
    let pieces = split_char(aips.as_slice(), ',');
    match first_bad_inet_exec(&pieces) {
        Some(j) => {
            let mut m = peer_prefix(n);
            push_str(&mut m, ": AllowedIPs “");
            let bt = trimmed(pieces[j].as_slice());
            push_chars(&mut m, bt.as_slice());
            push_str(&mut m, "” is not valid.");
            return Some(m);
        },
        None => {},
    }
    if ep.len() > 0 && !is_endpoint(ep.as_slice()) {
        let mut m = peer_prefix(n);
        push_str(&mut m, ": Endpoint “");
        push_chars(&mut m, ep.as_slice());
        push_str(&mut m, "” must be host:port.");
        return Some(m);
    }
    if ka.len() > 0 && parse_unsigned(ka.as_slice(), 0xffff_ffff).is_none() {
        let mut m = peer_prefix(n);
        push_str(&mut m, ": PersistentKeepalive “");
        push_chars(&mut m, ka.as_slice());
        push_str(&mut m, "” must be a number.");
        return Some(m);
    }
    None
}

fn has_iface_line_exec(ls: &Vec<Vec<char>>, hdr: &Vec<char>) -> (r: bool)
    requires
        hdr@ == "[interface]"@,
    ensures
        r == (exists|i: int| 0 <= i < ls@.len() && lower_seq(trim(#[trigger] views(ls@)[i])) == "[interface]"@),
{
    let mut i: usize = 0;
    while i < ls.len()
        invariant
            i <= ls@.len(),
            hdr@ == "[interface]"@,
            forall|j: int| 0 <= j < i ==> lower_seq(trim(#[trigger] views(ls@)[j])) != "[interface]"@,
        decreases ls@.len() - i,
    {
        let t = trimmed(ls[i].as_slice());
        let low = lower_vec(t.as_slice());
        if chars_eq(low.as_slice(), hdr.as_slice()) {
            assert(views(ls@)[i as int] == ls@[i as int]@);
            return true;
        }
        assert(views(ls@)[i as int] == ls@[i as int]@);
        i += 1;
    }
    false
}

/// Validate a tunnel config the way the WireGuard tools would expect, so the
/// user gets a clear message before it is ever handed to `wg-quick`.
pub fn validate_config(text: &str) -> (r: Result<(), String>)
    ensures
        r is Ok <==> config_error(text@) is None,
        r matches Err(e) ==> config_error(text@) == Some(e@),
{
    let cs = chars_of(text);
    let ls = split_lines(cs.as_slice());
    let hdr = chars_of("[interface]");
    if !has_iface_line_exec(&ls, &hdr) {
        return Err(string_of(chars_of("Missing an [Interface] section.").as_slice()));
    }
    let cfg = parse_config(text);
    match &cfg.private_key {
        None => {
            return Err(string_of(chars_of("[Interface] is missing PrivateKey.").as_slice()));
        },
        Some(k) => {
            let kc = chars_of(k.as_str());
            if kc.len() == 0 {
                return Err(string_of(chars_of("[Interface] is missing PrivateKey.").as_slice()));
            }
            if !is_wg_key(kc.as_slice()) {
                return Err(
                    string_of(
                        chars_of(
                            "PrivateKey is not a valid WireGuard key (expected 44-char base64).",
                        ).as_slice(),
                    ),
                );
            }
        },
    }
    match &cfg.address {
        None => {
            return Err(string_of(chars_of("[Interface] is missing Address.").as_slice()));
        },
        Some(a) => {
            let ac = chars_of(a.as_str());
            if ac.len() == 0 {
                return Err(string_of(chars_of("[Interface] is missing Address.").as_slice()));
            }
            let pieces = split_char(ac.as_slice(), ',');
            match first_bad_inet_exec(&pieces) {
                Some(j) => {
                    let mut m = String::new();
                    push_str(&mut m, "Address “");
                    let bt = trimmed(pieces[j].as_slice());
                    push_chars(&mut m, bt.as_slice());
                    push_str(&mut m, "” is not a valid IP/CIDR.");
                    return Err(m);
                },
                None => {},
            }
        },
    }
    match &cfg.listen_port {
        None => {},
        Some(port) => {
            let pc = chars_of(port.as_str());
            if pc.len() > 0 {
                let bad = match parse_unsigned(pc.as_slice(), 0xffff_ffff) {
                    Some(v) => v > 65535,
                    None => true,
                };
                if bad {
                    let mut m = String::new();
                    push_str(&mut m, "ListenPort “");
                    push_chars(&mut m, pc.as_slice());
                    push_str(&mut m, "” is not a valid port.");
                    return Err(m);
                }
            }
        },
    }
    if cfg.peers.len() == 0 {
        return Err(string_of(chars_of("At least one [Peer] section is required.").as_slice()));
    }
    let mut i: usize = 0;
    assert(cfg@.peers.subrange(0, cfg@.peers.len() as int) =~= cfg@.peers);
    assert(config_error(text@) == peers_error(cfg@.peers, 1));
    while i < cfg.peers.len()
        invariant
            i <= cfg.peers@.len(),
            cfg@ == parsed(text@),
            config_error(text@) == peers_error(cfg@.peers, 1),
            peers_error(cfg@.peers, 1) == peers_error(
                cfg@.peers.subrange(i as int, cfg@.peers.len() as int),
                (i + 1) as nat,
            ),
        decreases cfg.peers@.len() - i,
    {
        let ghost rest = cfg@.peers.subrange(i as int, cfg@.peers.len() as int);
        assert(rest[0] == cfg.peers@[i as int]@);
        assert(rest.drop_first() =~= cfg@.peers.subrange(i + 1, cfg@.peers.len() as int));
        match check_peer(&cfg.peers[i], (i + 1) as u64) {
            Some(e) => {
                return Err(e);
            },
            None => {},
        }
        i += 1;
    }
    assert(cfg@.peers.subrange(i as int, cfg@.peers.len() as int) =~= Seq::<ParsedPeerView>::empty());
    Ok(())
}

// ---------------------------------------------------------------------------
// Tunnel names
// ---------------------------------------------------------------------------

/// A tunnel and whether it is up.
pub struct Tunnel {
    pub name: String,
    pub active: bool,
}

pub struct TunnelView {
    pub name: Seq<char>,
    pub active: bool,
}

impl View for Tunnel {
    type V = TunnelView;

    open spec fn view(&self) -> TunnelView {
        TunnelView { name: self.name@, active: self.active }
    }
}

pub open spec fn tunnel_views(s: Seq<Tunnel>) -> Seq<TunnelView> {
    Seq::new(s.len(), |i: int| s[i]@)
}

/// The tunnel names listed one per line: each line trimmed, blank ones left out.
pub open spec fn listed_names(ls: Seq<Seq<char>>) -> Seq<Seq<char>>
    decreases ls.len(),
{
    if ls.len() == 0 {
        Seq::empty()
    } else if trim(ls.last()).len() == 0 {
        listed_names(ls.drop_last())
    } else {
        listed_names(ls.drop_last()).push(trim(ls.last()))
    }
}

/// The tunnels named in `names` (one per line), each marked active when it is
/// one of the whitespace-separated words of `active`.
pub open spec fn tunnel_list(names: Seq<char>, active: Seq<char>) -> Seq<TunnelView> {
    let ns = listed_names(lines(names));
    Seq::new(ns.len(), |i: int| TunnelView { name: ns[i], active: words(active).contains(ns[i]) })
}

fn words_contain(ws: &Vec<Vec<char>>, n: &[char]) -> (r: bool)
    ensures
        r == views(ws@).contains(n@),
{
    let mut i: usize = 0;
    while i < ws.len()
        invariant
            i <= ws@.len(),
            forall|j: int| 0 <= j < i ==> ws@[j]@ != n@,
        decreases ws@.len() - i,
    {
        if chars_eq(ws[i].as_slice(), n) {
            assert(views(ws@)[i as int] == n@);
            return true;
        }
        i += 1;
    }
    assert forall|j: int| 0 <= j < views(ws@).len() implies views(ws@)[j] != n@ by {
        assert(views(ws@)[j] == ws@[j]@);
    }
    false
}

/// The tunnels from the helper's `list` output (one name per line) and its
/// `active` output (whitespace-separated names of the tunnels that are up).
pub fn list_tunnels(names: &str, active: &str) -> (r: Vec<Tunnel>)
    ensures
        tunnel_views(r@) == tunnel_list(names@, active@),
{
    let nc = chars_of(names);
    let ac = chars_of(active);
    let ls = split_lines(nc.as_slice());
    let ws = split_words(ac.as_slice());
    let mut out: Vec<Tunnel> = Vec::new();
    let mut i: usize = 0;
    assert(views(ls@).subrange(0, 0) =~= Seq::<Seq<char>>::empty());
    while i < ls.len()
        invariant
            i <= ls@.len(),
            views(ls@) == lines(names@),
            views(ws@) == words(active@),
            tunnel_views(out@) == ({
                let ns = listed_names(views(ls@).subrange(0, i as int));
                Seq::new(ns.len(), |k: int| TunnelView { name: ns[k], active: words(active@).contains(ns[k]) })
            }),
        decreases ls@.len() - i,
    {
        let ghost pre = views(ls@).subrange(0, i as int);
        assert(views(ls@).subrange(0, i + 1).drop_last() =~= pre);
        assert(views(ls@).subrange(0, i + 1).last() == ls@[i as int]@);
        let t = trimmed(ls[i].as_slice());
        if t.len() > 0 {
            let act = words_contain(&ws, t.as_slice());
            let tn = Tunnel { name: string_of(t.as_slice()), active: act };
            let ghost old_out = out@;
            out.push(tn);
            proof {
                let ns = listed_names(views(ls@).subrange(0, i + 1));
                assert(tunnel_views(out@) =~= Seq::new(ns.len(), |k: int| TunnelView { name: ns[k], active: words(active@).contains(ns[k]) })) by {
                    assert(tunnel_views(out@) =~= tunnel_views(old_out).push(tn@));
                }
            }
        }
        i += 1;
    }
    assert(views(ls@).subrange(0, ls@.len() as int) =~= views(ls@));
    out
}

/// Whether one of `tunnels` is called `name`.
pub open spec fn name_taken(tunnels: Seq<TunnelView>, name: Seq<char>) -> bool {
    exists|i: int| 0 <= i < tunnels.len() && #[trigger] tunnels[i].name == name
}

pub fn tunnel_exists(tunnels: &Vec<Tunnel>, name: &str) -> (r: bool)
    ensures
        r == name_taken(tunnel_views(tunnels@), name@),
{
    let n = chars_of(name);
    let mut i: usize = 0;
    while i < tunnels.len()
        invariant
            i <= tunnels@.len(),
            n@ == name@,
            forall|j: int| 0 <= j < i ==> tunnels@[j].name@ != name@,
        decreases tunnels@.len() - i,
    {
        let c = chars_of(tunnels[i].name.as_str());
        if chars_eq(c.as_slice(), n.as_slice()) {
            assert(tunnel_views(tunnels@)[i as int].name == name@);
            return true;
        }
        i += 1;
    }
    assert forall|j: int| 0 <= j < tunnel_views(tunnels@).len() implies #[trigger] tunnel_views(tunnels@)[j].name != name@ by {
        assert(tunnel_views(tunnels@)[j] == tunnels@[j]@);
    }
    false
}

pub open spec fn name_char(c: char) -> bool {
    is_ascii_alnum(c) || c == '_' || c == '-' || c == '.'
}

/// Every character that may not stand in a name replaced by `_`.
pub open spec fn name_chars(s: Seq<char>) -> Seq<char> {
    Seq::new(s.len(), |i: int| if name_char(s[i]) { s[i] } else { '_' })
}

pub open spec fn strip_dots_start(s: Seq<char>) -> Seq<char>
    decreases s.len(),
{
    if s.len() > 0 && s[0] == '.' {
        strip_dots_start(s.drop_first())
    } else {
        s
    }
}

pub open spec fn strip_dots_end(s: Seq<char>) -> Seq<char>
    decreases s.len(),
{
    if s.len() > 0 && s.last() == '.' {
        strip_dots_end(s.drop_last())
    } else {
        s
    }
}

/// At most the first `n` characters of `s`.
pub open spec fn take_chars(s: Seq<char>, n: int) -> Seq<char> {
    if s.len() <= n {
        s
    } else {
        s.subrange(0, n)
    }
}

/// The tunnel name made from a file name: characters other than ASCII
/// letters, digits, `_`, `-` and `.` become `_`, dots are stripped from both
/// ends, an empty result becomes `tunnel`, and at most 15 characters are kept.
pub open spec fn sanitized(s: Seq<char>) -> Seq<char> {
    let t = strip_dots_end(strip_dots_start(name_chars(s)));
    take_chars(if t.len() == 0 { "tunnel"@ } else { t }, 15)
}

fn take_vec(s: &[char], n: usize) -> (r: Vec<char>)
    ensures
        r@ == take_chars(s@, n as int),
{
    if s.len() <= n {
        copy_range(s, 0, s.len())
    } else {
        copy_range(s, 0, n)
    }
}

fn sanitize_chars(file_stem: &[char]) -> (r: Vec<char>)
    ensures
        r@ == sanitized(file_stem@),
{
    let mut m: Vec<char> = Vec::new();
    let mut i: usize = 0;
    while i < file_stem.len()
        invariant
            i <= file_stem@.len(),
            m@ =~= name_chars(file_stem@.subrange(0, i as int)),
        decreases file_stem@.len() - i,
    {
        let c = file_stem[i];
        if ('a' <= c && c <= 'z') || ('A' <= c && c <= 'Z') || ('0' <= c && c <= '9') || c == '_' || c == '-' || c == '.' {
            m.push(c);
        } else {
            m.push('_');
        }
        i += 1;
    }
    assert(file_stem@.subrange(0, file_stem@.len() as int) =~= file_stem@);
    let mut lo: usize = 0;
    assert(m@.subrange(0, m@.len() as int) =~= m@);
    while lo < m.len() && m[lo] == '.'
        invariant
            lo <= m@.len(),
            strip_dots_start(m@) == strip_dots_start(m@.subrange(lo as int, m@.len() as int)),
        decreases m@.len() - lo,
    {
        assert(m@.subrange(lo as int, m@.len() as int).drop_first() =~= m@.subrange(lo + 1, m@.len() as int));
        lo += 1;
    }
    let ghost a = m@.subrange(lo as int, m@.len() as int);
    let mut hi: usize = m.len();
    while hi > lo && m[hi - 1] == '.'
        invariant
            lo <= hi <= m@.len(),
            a == m@.subrange(lo as int, m@.len() as int),
            strip_dots_end(a) == strip_dots_end(m@.subrange(lo as int, hi as int)),
        decreases hi,
    {
        assert(m@.subrange(lo as int, hi as int).drop_last() =~= m@.subrange(lo as int, hi - 1));
        hi -= 1;
    }
    let t = copy_range(m.as_slice(), lo, hi);
    if t.len() == 0 {
        let d = chars_of("tunnel");
        take_vec(d.as_slice(), 15)
    } else {
        take_vec(t.as_slice(), 15)
    }
}

/// Make a safe tunnel/interface name from an imported file name.
pub fn sanitize_name(file_stem: &str) -> (r: String)
    ensures
        r@ == sanitized(file_stem@),
{
    let c = chars_of(file_stem);
    let v = sanitize_chars(c.as_slice());
    string_of(v.as_slice())
}

/// `base` shortened so that `-n` fits within 15 characters, then `-n`.
pub open spec fn numbered(base: Seq<char>, n: nat) -> Seq<char> {
    take_chars(base, 15 - (1 + dec(n).len())) + seq!['-'] + dec(n)
}

/// The first of `numbered(base, k)` for `k` from `n` up to 999 that no
/// tunnel has taken, or `base` when all of them are taken.
pub open spec fn first_free(tunnels: Seq<TunnelView>, base: Seq<char>, n: nat) -> Seq<char>
    decreases 1000 - n,
{
    if n >= 1000 {
        base
    } else if !name_taken(tunnels, numbered(base, n)) {
        numbered(base, n)
    } else {
        first_free(tunnels, base, n + 1)
    }
}

/// The name `unique_name` picks for `base` among `tunnels`.
pub open spec fn unique_spec(tunnels: Seq<TunnelView>, base: Seq<char>) -> Seq<char> {
    let b = sanitized(base);
    if !name_taken(tunnels, b) {
        b
    } else {
        first_free(tunnels, b, 2)
    }
}

fn name_taken_exec(tunnels: &Vec<Tunnel>, name: &[char]) -> (r: bool)
    ensures
        r == name_taken(tunnel_views(tunnels@), name@),
{
    let s = string_of(name);
    tunnel_exists(tunnels, s.as_str())
}

/// A collision-free tunnel name based on `base`: the sanitized `base`, else
/// `base-2`, `base-3`, … (kept within the 15-char interface-name limit),
/// among the names of `tunnels`.
pub fn unique_name(base: &str, tunnels: &Vec<Tunnel>) -> (r: String)
    ensures
        r@ == unique_spec(tunnel_views(tunnels@), base@),
{
    let bc = chars_of(base);
    let b = sanitize_chars(bc.as_slice());
    if !name_taken_exec(tunnels, b.as_slice()) {
        return string_of(b.as_slice());
    }
    let mut n: u64 = 2;
    while n < 1000
        invariant
            2 <= n <= 1000,
            b@ == sanitized(base@),
            name_taken(tunnel_views(tunnels@), b@),
            first_free(tunnel_views(tunnels@), b@, 2) == first_free(tunnel_views(tunnels@), b@, n as nat),
        decreases 1000 - n,
    {
        let mut suffix = String::new();
        push_str(&mut suffix, "-");
        push_dec(&mut suffix, n);
        let sc = chars_of(suffix.as_str());
        proof {
            crate::text::lemma_dec_short(n as nat);
            reveal_strlit("-");
        }
        let keep: usize = if sc.len() < 15 { 15 - sc.len() } else { 0 };
        assert(keep as int == 15 - (1 + dec(n as nat).len()));
        let head = take_vec(b.as_slice(), keep);
        let mut cand = String::new();
        push_chars(&mut cand, head.as_slice());
        push_chars(&mut cand, sc.as_slice());
        assert(cand@ =~= numbered(b@, n as nat));
        if !tunnel_exists(tunnels, cand.as_str()) {
            return cand;
        }
        n += 1;
    }
    string_of(b.as_slice())
}

// ---------------------------------------------------------------------------
// Live status (`wg show <iface> dump`)
// ---------------------------------------------------------------------------

/// One peer line of the dump.
pub struct LivePeer {
    pub public_key: String,
    pub endpoint: String,
    pub allowed_ips: String,
    pub latest_handshake: u64,
    pub rx: u64,
    pub tx: u64,
}

/// The interface line and peer lines of the dump.
pub struct LiveDump {
    pub iface_public: String,
    pub listen_port: String,
    pub peers: Vec<LivePeer>,
}

pub struct LivePeerView {
    pub public_key: Seq<char>,
    pub endpoint: Seq<char>,
    pub allowed_ips: Seq<char>,
    pub latest_handshake: nat,
    pub rx: nat,
    pub tx: nat,
}

pub struct LiveDumpView {
    pub iface_public: Seq<char>,
    pub listen_port: Seq<char>,
    pub peers: Seq<LivePeerView>,
}

impl View for LivePeer {
    type V = LivePeerView;

    open spec fn view(&self) -> LivePeerView {
        LivePeerView {
            public_key: self.public_key@,
            endpoint: self.endpoint@,
            allowed_ips: self.allowed_ips@,
            latest_handshake: self.latest_handshake as nat,
            rx: self.rx as nat,
            tx: self.tx as nat,
        }
    }
}

pub open spec fn live_peer_views(s: Seq<LivePeer>) -> Seq<LivePeerView> {
    Seq::new(s.len(), |i: int| s[i]@)
}

impl View for LiveDump {
    type V = LiveDumpView;

    open spec fn view(&self) -> LiveDumpView {
        LiveDumpView {
            iface_public: self.iface_public@,
            listen_port: self.listen_port@,
            peers: live_peer_views(self.peers@),
        }
    }
}

/// A counter field: its decimal value, or 0 when it does not parse as a `u64`.
pub open spec fn counter(s: Seq<char>) -> nat {
    match parse_uint(s, 0xffff_ffff_ffff_ffff) {
        Some(v) => v,
        None => 0,
    }
}

/// Peer lines of the dump (tab-separated: public-key, preshared-key,
/// endpoint, allowed-ips, latest-handshake, rx, tx, …); lines with fewer than
/// seven fields are skipped.
pub open spec fn live_peers(ls: Seq<Seq<char>>) -> Seq<LivePeerView>
    decreases ls.len(),
{
    if ls.len() == 0 {
        Seq::empty()
    } else {
        let p = split_on(ls.last(), '\t');
        if p.len() < 7 {
            live_peers(ls.drop_last())
        } else {
            live_peers(ls.drop_last()).push(
                LivePeerView {
                    public_key: p[0],
                    endpoint: p[2],
                    allowed_ips: p[3],
                    latest_handshake: counter(p[4]),
                    rx: counter(p[5]),
                    tx: counter(p[6]),
                },
            )
        }
    }
}

/// The dump read from `text`: none when there is no first line or it has
/// fewer than three tab-separated fields; else its public key and listen
/// port (fields 2 and 3) and the peers of the later lines.
pub open spec fn dump_spec(text: Seq<char>) -> Option<LiveDumpView> {
    let ls = lines(text);
    if ls.len() == 0 {
        None
    } else {
        let f = split_on(ls[0], '\t');
        if f.len() < 3 {
            None
        } else {
            Some(LiveDumpView { iface_public: f[1], listen_port: f[2], peers: live_peers(ls.drop_first()) })
        }
    }
}

fn counter_exec(s: &[char]) -> (r: u64)
    ensures
        r as nat == counter(s@),
{
    match parse_unsigned(s, 0xffff_ffff_ffff_ffff) {
        Some(v) => v,
        None => 0,
    }
}

/// Read `wg show <iface> dump` output.
pub fn parse_dump(text: &str) -> (r: Option<LiveDump>)
    ensures
        r matches Some(d) ==> dump_spec(text@) == Some(d@),
        r is None ==> dump_spec(text@) is None,
{
    let cs = chars_of(text);
    let ls = split_lines(cs.as_slice());
    if ls.len() == 0 {
        return None;
    }
    let f = split_char(ls[0].as_slice(), '\t');
    assert(views(f@) == split_on(views(ls@)[0], '\t'));
    if f.len() < 3 {
        return None;
    }
    let mut peers: Vec<LivePeer> = Vec::new();
    let mut i: usize = 1;
    let ghost rest = views(ls@).drop_first();
    assert(rest.subrange(0, 0) =~= Seq::<Seq<char>>::empty());
    assert(live_peer_views(peers@) =~= Seq::<LivePeerView>::empty());
    while i < ls.len()
        invariant
            1 <= i <= ls@.len(),
            rest == views(ls@).drop_first(),
            live_peer_views(peers@) == live_peers(rest.subrange(0, i - 1)),
        decreases ls@.len() - i,
    {
        assert(rest.subrange(0, i as int).drop_last() =~= rest.subrange(0, i - 1));
        assert(rest.subrange(0, i as int).last() == ls@[i as int]@);
        let p = split_char(ls[i].as_slice(), '\t');
        if p.len() >= 7 {
            let lp = LivePeer {
                public_key: string_of(p[0].as_slice()),
                endpoint: string_of(p[2].as_slice()),
                allowed_ips: string_of(p[3].as_slice()),
                latest_handshake: counter_exec(p[4].as_slice()),
                rx: counter_exec(p[5].as_slice()),
                tx: counter_exec(p[6].as_slice()),
            };
            let ghost old_peers = peers@;
            peers.push(lp);
            assert(live_peer_views(peers@) =~= live_peer_views(old_peers).push(lp@));
        }
        i += 1;
    }
    assert(rest.subrange(0, rest.len() as int) =~= rest);
    Some(LiveDump { iface_public: string_of(f[1].as_slice()), listen_port: string_of(f[2].as_slice()), peers })
}

// ---------------------------------------------------------------------------
// Formatting
// ---------------------------------------------------------------------------

/// How long ago a handshake at `epoch` was, seen at `now` (both in seconds
/// since the Unix epoch); empty for `epoch == 0` (no handshake yet).
pub open spec fn handshake_text(epoch: nat, now: nat) -> Seq<char> {
    let s: nat = if now >= epoch { (now - epoch) as nat } else { 0 };
    if epoch == 0 {
        Seq::empty()
    } else if s == 0 {
        "now"@
    } else if s == 1 {
        "1 second ago"@
    } else if s < 60 {
        dec(s) + " seconds ago"@
    } else if s < 120 {
        "1 minute ago"@
    } else if s < 3600 {
        dec(s / 60) + " minutes ago"@
    } else if s < 7200 {
        "1 hour ago"@
    } else if s < 86400 {
        dec(s / 3600) + " hours ago"@
    } else {
        dec(s / 86400) + " days ago"@
    }
}

fn text_with(n: u64, suffix: &str) -> (r: String)
    ensures
        r@ == dec(n as nat) + suffix@,
{
    let mut m = String::new();
    push_dec(&mut m, n);
    push_str(&mut m, suffix);
    m
}

/// How long ago a handshake at `epoch` was, seen at `now`.
pub fn fmt_handshake(epoch: u64, now: u64) -> (r: String)
    ensures
        r@ == handshake_text(epoch as nat, now as nat),
{
    if epoch == 0 {
        return String::new();
    }
    let s: u64 = if now >= epoch { now - epoch } else { 0 };
    if s == 0 {
        string_of(chars_of("now").as_slice())
    } else if s == 1 {
        string_of(chars_of("1 second ago").as_slice())
    } else if s < 60 {
        text_with(s, " seconds ago")
    } else if s < 120 {
        string_of(chars_of("1 minute ago").as_slice())
    } else if s < 3600 {
        text_with(s / 60, " minutes ago")
    } else if s < 7200 {
        string_of(chars_of("1 hour ago").as_slice())
    } else if s < 86400 {
        text_with(s / 3600, " hours ago")
    } else {
        text_with(s / 86400, " days ago")
    }
}

pub open spec fn pow2(n: nat) -> nat
    decreases n,
{
    if n == 0 {
        1
    } else {
        2 * pow2((n - 1) as nat)
    }
}

/// Number of binary digits of `b`.
pub open spec fn bit_len(b: nat) -> nat
    decreases b,
{
    if b == 0 {
        0
    } else {
        1 + bit_len(b / 2)
    }
}

/// The value of `b as f64`: `b` rounded to 53 significant bits, ties to even.
pub open spec fn as_f64(b: nat) -> nat {
    if b < pow2(53) {
        b
    } else {
        let e = (bit_len(b) - 53) as nat;
        let q = b / pow2(e);
        let r = b % pow2(e);
        if 2 * r > pow2(e) || (2 * r == pow2(e) && q % 2 == 1) {
            (q + 1) * pow2(e)
        } else {
            q * pow2(e)
        }
    }
}

/// Two decimal digits of `d < 100`.
pub open spec fn two_digits(d: nat) -> Seq<char> {
    seq![digit_char(d / 10), digit_char(d % 10)]
}

/// `x / den` printed with two decimals, rounded to nearest with ties to even
/// (as `{:.2}` prints the exact binary value of an `f64`).
pub open spec fn fixed2(x: nat, den: nat) -> Seq<char> {
    let t = x * 100;
    let q = t / den;
    let r = t % den;
    let q2: nat = if 2 * r > den || (2 * r == den && q % 2 == 1) { q + 1 } else { q };
    dec(q2 / 100) + seq!['.'] + two_digits(q2 % 100)
}

/// A byte count in B, KiB, MiB, GiB or TiB (powers of 1024), as the value
/// `b as f64` divided by the unit and printed with two decimals (bytes
/// without decimals). The quotient of a power-of-two division is exact, and
/// `{:.2}` rounds that exact value to nearest with ties to even, which is
/// what `fixed2` computes.
pub open spec fn bytes_text(b: nat) -> Seq<char> {
    let f = as_f64(b);
    if f < 1024 {
        dec(f) + " B"@
    } else if f < 1048576 {
        fixed2(f, 1024) + " KiB"@
    } else if f < 1073741824 {
        fixed2(f, 1048576) + " MiB"@
    } else if f < 1099511627776 {
        fixed2(f, 1073741824) + " GiB"@
    } else {
        fixed2(f, 1099511627776) + " TiB"@
    }
}

/// Received and sent byte counts; empty when both are 0.
pub open spec fn transfer_text(rx: nat, tx: nat) -> Seq<char> {
    if rx == 0 && tx == 0 {
        Seq::empty()
    } else {
        bytes_text(rx) + " received, "@ + bytes_text(tx) + " sent"@
    }
}

proof fn lemma_pow2_pos(n: nat)
    ensures
        pow2(n) >= 1,
    decreases n,
{
    if n > 0 {
        lemma_pow2_pos((n - 1) as nat);
    }
}

proof fn lemma_pow2_mono(a: nat, b: nat)
    requires
        a <= b,
    ensures
        pow2(a) <= pow2(b),
    decreases b,
{
    if a < b {
        lemma_pow2_mono(a, (b - 1) as nat);
        lemma_pow2_pos((b - 1) as nat);
    }
}

/// `b < 2^k` has at most `k` binary digits, and `2^(bit_len(b)-1) <= b`.
proof fn lemma_bit_len(b: nat, k: nat)
    requires
        b < pow2(k),
    ensures
        bit_len(b) <= k,
        b > 0 ==> pow2((bit_len(b) - 1) as nat) <= b,
    decreases k,
{
    if b > 0 {
        if k == 0 {
            assert(false);
        } else {
            lemma_bit_len(b / 2, (k - 1) as nat);
            if b / 2 > 0 {
                assert(pow2((bit_len(b / 2) - 1) as nat) <= b / 2);
                assert(pow2((bit_len(b) - 1) as nat) == 2 * pow2((bit_len(b / 2) - 1) as nat));
            }
        }
    }
}

/// `b < 2^bit_len(b)`.
proof fn lemma_below_pow2_bit_len(b: nat)
    ensures
        b < pow2(bit_len(b)),
    decreases b,
{
    if b > 0 {
        lemma_below_pow2_bit_len(b / 2);
    }
}

proof fn lemma_pow2_values()
    ensures
        pow2(11) == 2048,
        pow2(53) == 0x20_0000_0000_0000,
        pow2(64) == 0x1_0000_0000_0000_0000,
{
    reveal_with_fuel(pow2, 65);
}

fn pow2_exec(n: u32) -> (r: u128)
    requires
        n <= 64,
    ensures
        r as nat == pow2(n as nat),
{
    let mut p: u128 = 1;
    let mut i: u32 = 0;
    while i < n
        invariant
            i <= n <= 64,
            p as nat == pow2(i as nat),
            p <= 0x1_0000_0000_0000_0000,
        decreases n - i,
    {
        proof {
            lemma_pow2_mono((i + 1) as nat, 64);
            lemma_pow2_values();
        }
        p = p * 2;
        i += 1;
    }
    p
}

fn as_f64_exec(b: u64) -> (r: u128)
    ensures
        r as nat == as_f64(b as nat),
        r <= 0x1_0000_0000_0000_0800,
{
    proof {
        lemma_pow2_values();
    }
    if b < 0x20_0000_0000_0000 {
        return b as u128;
    }
    let mut len: u32 = 0;
    let mut x: u64 = b;
    proof {
        lemma_bit_len(b as nat, 64);
        lemma_below_pow2_bit_len(b as nat);
        if bit_len(b as nat) < 54 {
            lemma_pow2_mono(bit_len(b as nat), 53);
        }
    }
    while x > 0
        invariant
            len <= 64,
            len + bit_len(x as nat) == bit_len(b as nat),
            bit_len(x as nat) + len <= 64,
        decreases x,
    {
        x = x / 2;
        len += 1;
    }
    let e: u32 = len - 53;
    let p = pow2_exec(e);
    proof {
        lemma_pow2_pos(e as nat);
        lemma_pow2_mono(e as nat, 11);
    }
    let q: u128 = (b as u128) / p;
    let r: u128 = (b as u128) % p;
    let up = 2 * r > p || (2 * r == p && q % 2 == 1);
    let res: u128 = if up {
        assert((q + 1) * p <= (b as u128) + p) by (nonlinear_arith)
            requires q == (b as u128) / p, p >= 1;
        (q + 1) * p
    } else {
        assert(q * p <= (b as u128)) by (nonlinear_arith)
            requires q == (b as u128) / p, p >= 1;
        q * p
    };
    res
}

fn push_fixed2(out: &mut String, x: u128, den: u128)
    requires
        1024 <= den <= 1099511627776,
        x <= 0x1_0000_0000_0000_0800,
    ensures
        final(out)@ == old(out)@ + fixed2(x as nat, den as nat),
{
    let t: u128 = x * 100;
    let q: u128 = t / den;
    let r: u128 = t % den;
    let q2: u128 = if 2 * r > den || (2 * r == den && q % 2 == 1) { q + 1 } else { q };
    assert(q <= t / 1024) by (nonlinear_arith)
        requires q == t / den, den >= 1024;
    assert(t / 1024 <= 0x20_0000_0000_0000_00) by (nonlinear_arith)
        requires t == x * 100, x <= 0x1_0000_0000_0000_0800;
    let whole: u128 = q2 / 100;
    assert(whole < 0x1_0000_0000_0000_0000);
    let frac: u128 = q2 % 100;
    push_dec(out, whole as u64);
    out.push('.');
    let d1: u8 = (frac / 10) as u8;
    let d2: u8 = (frac % 10) as u8;
    let c1: char = (48u8 + d1) as char;
    let c2: char = (48u8 + d2) as char;
    out.push(c1);
    out.push(c2);
    assert(c1 == digit_char((frac / 10) as nat));
    assert(c2 == digit_char((frac % 10) as nat));
    assert(out@ =~= old(out)@ + fixed2(x as nat, den as nat));
}

/// A byte count in B, KiB, MiB, GiB or TiB.
pub fn fmt_bytes(b: u64) -> (r: String)
    ensures
        r@ == bytes_text(b as nat),
{
    let f = as_f64_exec(b);
    let mut out = String::new();
    if f < 1024 {
        push_dec(&mut out, f as u64);
        push_str(&mut out, " B");
    } else if f < 1048576 {
        push_fixed2(&mut out, f, 1024);
        push_str(&mut out, " KiB");
    } else if f < 1073741824 {
        push_fixed2(&mut out, f, 1048576);
        push_str(&mut out, " MiB");
    } else if f < 1099511627776 {
        push_fixed2(&mut out, f, 1073741824);
        push_str(&mut out, " GiB");
    } else {
        push_fixed2(&mut out, f, 1099511627776);
        push_str(&mut out, " TiB");
    }
    out
}

/// Received and sent byte counts, or nothing when both are 0.
pub fn fmt_transfer(rx: u64, tx: u64) -> (r: String)
    ensures
        r@ == transfer_text(rx as nat, tx as nat),
{
    if rx == 0 && tx == 0 {
        return String::new();
    }
    let mut out = fmt_bytes(rx);
    push_str(&mut out, " received, ");
    let t = fmt_bytes(tx);
    push_str(&mut out, t.as_str());
    push_str(&mut out, " sent");
    out
}

// ---------------------------------------------------------------------------
// Detail view
// ---------------------------------------------------------------------------

/// One peer as the detail view shows it.
pub struct Peer {
    pub public_key: String,
    pub preshared: bool,
    pub allowed_ips: String,
    pub endpoint: String,
    pub keepalive: String,
    pub latest_handshake: String,
    pub transfer: String,
}

/// A tunnel as the detail view shows it.
pub struct Detail {
    pub name: String,
    pub active: bool,
    pub public_key: String,
    pub listen_port: String,
    pub addresses: String,
    pub dns: String,
    pub peers: Vec<Peer>,
}

pub struct PeerView {
    pub public_key: Seq<char>,
    pub preshared: bool,
    pub allowed_ips: Seq<char>,
    pub endpoint: Seq<char>,
    pub keepalive: Seq<char>,
    pub latest_handshake: Seq<char>,
    pub transfer: Seq<char>,
}

pub struct DetailView {
    pub name: Seq<char>,
    pub active: bool,
    pub public_key: Seq<char>,
    pub listen_port: Seq<char>,
    pub addresses: Seq<char>,
    pub dns: Seq<char>,
    pub peers: Seq<PeerView>,
}

impl View for Peer {
    type V = PeerView;

    open spec fn view(&self) -> PeerView {
        PeerView {
            public_key: self.public_key@,
            preshared: self.preshared,
            allowed_ips: self.allowed_ips@,
            endpoint: self.endpoint@,
            keepalive: self.keepalive@,
            latest_handshake: self.latest_handshake@,
            transfer: self.transfer@,
        }
    }
}

pub open spec fn peer_detail_views(s: Seq<Peer>) -> Seq<PeerView> {
    Seq::new(s.len(), |i: int| s[i]@)
}

impl View for Detail {
    type V = DetailView;

    open spec fn view(&self) -> DetailView {
        DetailView {
            name: self.name@,
            active: self.active,
            public_key: self.public_key@,
            listen_port: self.listen_port@,
            addresses: self.addresses@,
            dns: self.dns@,
            peers: peer_detail_views(self.peers@),
        }
    }
}

pub open spec fn or_empty(o: Option<Seq<char>>) -> Seq<char> {
    match o {
        Some(s) => s,
        None => Seq::empty(),
    }
}

pub open spec fn dump_view(o: Option<LiveDump>) -> Option<LiveDumpView> {
    match o {
        Some(l) => Some(l@),
        None => None,
    }
}

pub open spec fn time_view(o: Option<u64>) -> Option<nat> {
    match o {
        Some(n) => Some(n as nat),
        None => None,
    }
}

/// The first live peer with public key `key`.
pub open spec fn find_live(ps: Seq<LivePeerView>, key: Seq<char>) -> Option<LivePeerView>
    decreases ps.len(),
{
    if ps.len() == 0 {
        None
    } else if ps[0].public_key == key {
        Some(ps[0])
    } else {
        find_live(ps.drop_first(), key)
    }
}

/// A configured peer merged with its live counterpart (matched by public
/// key): the configured AllowedIPs unless empty, the live endpoint unless
/// empty or `(none)`, and the handshake age (seen at `now`, or at the
/// handshake itself when the clock is unknown) and transfer when live.
pub open spec fn peer_detail(p: ParsedPeerView, live: Option<LiveDumpView>, now: Option<nat>) -> PeerView {
    let lp = match live {
        Some(l) => find_live(l.peers, p.public_key),
        None => None,
    };
    PeerView {
        public_key: p.public_key,
        preshared: p.preshared_key.len() > 0,
        allowed_ips: if p.allowed_ips.len() == 0 {
            match lp {
                Some(x) => x.allowed_ips,
                None => Seq::empty(),
            }
        } else {
            p.allowed_ips
        },
        endpoint: match lp {
            Some(x) => if x.endpoint.len() > 0 && x.endpoint != "(none)"@ {
                x.endpoint
            } else {
                p.endpoint
            },
            None => p.endpoint,
        },
        keepalive: p.keepalive,
        latest_handshake: match lp {
            Some(x) => handshake_text(
                x.latest_handshake,
                match now {
                    Some(n) => n,
                    None => x.latest_handshake,
                },
            ),
            None => Seq::empty(),
        },
        transfer: match lp {
            Some(x) => transfer_text(x.rx, x.tx),
            None => Seq::empty(),
        },
    }
}

/// Whether the dump shows a non-empty interface public key.
pub open spec fn live_has_key(live: Option<LiveDumpView>) -> bool {
    match live {
        Some(l) => l.iface_public.len() > 0,
        None => false,
    }
}

/// The detail view of tunnel `name` from its config text and its dump text.
/// `derived` is the public key that `wg pubkey` gives for the config's
/// private key (used only when the dump shows none), `now` the clock in
/// seconds since the Unix epoch when known.
pub open spec fn detail_spec(
    name: Seq<char>,
    cfg: Seq<char>,
    dump: Seq<char>,
    derived: Option<Seq<char>>,
    now: Option<nat>,
) -> DetailView {
    let c = parsed(cfg);
    let live = dump_spec(dump);
    DetailView {
        name: name,
        active: trim(dump).len() > 0,
        public_key: if live_has_key(live) {
            live.unwrap().iface_public
        } else if c.private_key is Some {
            or_empty(derived)
        } else {
            Seq::empty()
        },
        listen_port: match live {
            Some(l) => if l.listen_port.len() > 0 {
                l.listen_port
            } else {
                or_empty(c.listen_port)
            },
            None => or_empty(c.listen_port),
        },
        addresses: or_empty(c.address),
        dns: or_empty(c.dns),
        peers: Seq::new(c.peers.len(), |i: int| peer_detail(c.peers[i], live, now)),
    }
}

/// The private key whose public key the detail view needs: the config's,
/// when the dump shows no interface public key.
pub open spec fn key_to_derive(cfg: Seq<char>, dump: Seq<char>) -> Option<Seq<char>> {
    if live_has_key(dump_spec(dump)) {
        None
    } else {
        parsed(cfg).private_key
    }
}

fn opt_string(o: &Option<String>) -> (r: String)
    ensures
        r@ == or_empty(opt_view(*o)),
{
    match o {
        Some(s) => s.clone(),
        None => String::new(),
    }
}

fn find_live_exec(ps: &Vec<LivePeer>, key: &String) -> (r: Option<usize>)
    ensures
        r matches Some(i) ==> i < ps@.len() && find_live(live_peer_views(ps@), key@) == Some(ps@[i as int]@),
        r is None ==> find_live(live_peer_views(ps@), key@) is None,
{
    let kc = chars_of(key.as_str());
    let mut i: usize = 0;
    assert(live_peer_views(ps@).subrange(0, ps@.len() as int) =~= live_peer_views(ps@));
    while i < ps.len()
        invariant
            i <= ps@.len(),
            kc@ == key@,
            find_live(live_peer_views(ps@), key@) == find_live(
                live_peer_views(ps@).subrange(i as int, ps@.len() as int),
                key@,
            ),
        decreases ps@.len() - i,
    {
        let ghost rest = live_peer_views(ps@).subrange(i as int, ps@.len() as int);
        assert(rest[0] == ps@[i as int]@);
        assert(rest.drop_first() =~= live_peer_views(ps@).subrange(i + 1, ps@.len() as int));
        let pc = chars_of(ps[i].public_key.as_str());
        if chars_eq(pc.as_slice(), kc.as_slice()) {
            return Some(i);
        }
        i += 1;
    }
    assert(live_peer_views(ps@).subrange(i as int, ps@.len() as int) =~= Seq::<LivePeerView>::empty());
    None
}

fn peer_detail_exec(p: &ParsedPeer, live: &Option<LiveDump>, now: Option<u64>) -> (r: Peer)
    ensures
        r@ == peer_detail(p@, dump_view(*live), time_view(now)),
{
    let lp: Option<&LivePeer> = match live {
        Some(l) => match find_live_exec(&l.peers, &p.public_key) {
            Some(i) => Some(&l.peers[i]),
            None => None,
        },
        None => None,
    };
    let allowed_ips = if p.allowed_ips.as_str().is_empty() {
        match lp {
            Some(x) => x.allowed_ips.clone(),
            None => String::new(),
        }
    } else {
        p.allowed_ips.clone()
    };
    let none_word = chars_of("(none)");
    let endpoint = match lp {
        Some(x) => {
            let ec = chars_of(x.endpoint.as_str());
            if ec.len() > 0 && !chars_eq(ec.as_slice(), none_word.as_slice()) {
                x.endpoint.clone()
            } else {
                p.endpoint.clone()
            }
        },
        None => p.endpoint.clone(),
    };
    let latest_handshake = match lp {
        Some(x) => {
            let at = match now {
                Some(n) => n,
                None => x.latest_handshake,
            };
            fmt_handshake(x.latest_handshake, at)
        },
        None => String::new(),
    };
    let transfer = match lp {
        Some(x) => fmt_transfer(x.rx, x.tx),
        None => String::new(),
    };
    Peer {
        public_key: p.public_key.clone(),
        preshared: !p.preshared_key.as_str().is_empty(),
        allowed_ips,
        endpoint,
        keepalive: p.keepalive.clone(),
        latest_handshake,
        transfer,
    }
}

/// The private key to derive the tunnel's public key from, when the dump
/// does not show it.
pub fn private_key_to_derive(config_text: &str, dump_text: &str) -> (r: Option<String>)
    ensures
        opt_view(r) == key_to_derive(config_text@, dump_text@),
{
    let live = parse_dump(dump_text);
    let has_key = match &live {
        Some(l) => !l.iface_public.as_str().is_empty(),
        None => false,
    };
    if has_key {
        None
    } else {
        parse_config(config_text).private_key
    }
}

/// Build the full detail view for a tunnel by merging its config text with
/// its `wg show <name> dump` text. `derived_public_key` is what `wg pubkey`
/// printed for the config's private key, `now` the current Unix time.
pub fn get_detail(
    name: &str,
    config_text: &str,
    dump_text: &str,
    derived_public_key: Option<String>,
    now: Option<u64>,
) -> (r: Detail)
    ensures
        r@ == detail_spec(name@, config_text@, dump_text@, opt_view(derived_public_key), time_view(now)),
{
    let cfg = parse_config(config_text);
    let live = parse_dump(dump_text);
    let ghost livev = dump_view(live);
    let ghost nowv = time_view(now);
    let dc = chars_of(dump_text);
    let dt = trimmed(dc.as_slice());
    let active = dt.len() > 0;
    let public_key = match &live {
        Some(l) if !l.iface_public.as_str().is_empty() => l.iface_public.clone(),
        _ => if cfg.private_key.is_some() {
            opt_string(&derived_public_key)
        } else {
            String::new()
        },
    };
    let listen_port = match &live {
        Some(l) if !l.listen_port.as_str().is_empty() => l.listen_port.clone(),
        _ => opt_string(&cfg.listen_port),
    };
    let mut peers: Vec<Peer> = Vec::new();
    let mut i: usize = 0;
    while i < cfg.peers.len()
        invariant
            i <= cfg.peers@.len(),
            livev == dump_view(live),
            nowv == time_view(now),
            cfg@ == parsed(config_text@),
            peer_detail_views(peers@) =~= Seq::new(i as nat, |k: int| peer_detail(cfg@.peers[k], livev, nowv)),
        decreases cfg.peers@.len() - i,
    {
        let pd = peer_detail_exec(&cfg.peers[i], &live, now);
        assert(cfg@.peers[i as int] == cfg.peers@[i as int]@);
        let ghost old_peers = peers@;
        peers.push(pd);
        assert(peer_detail_views(peers@) =~= peer_detail_views(old_peers).push(pd@));
        i += 1;
    }
    Detail {
        name: string_of(chars_of(name).as_slice()),
        active,
        public_key,
        listen_port,
        addresses: opt_string(&cfg.address),
        dns: opt_string(&cfg.dns),
        peers,
    }
}


// ---------------------------------------------------------------------------
// Laws on tunnel names
// ---------------------------------------------------------------------------

/// A name fit for a tunnel interface: 1 to 15 characters, each an ASCII
/// letter or digit, `_`, `-` or `.`, and not starting with `.`.
pub open spec fn safe_name(s: Seq<char>) -> bool {
    &&& 1 <= s.len() <= 15
    &&& forall|i: int| 0 <= i < s.len() ==> name_char(#[trigger] s[i])
    &&& s[0] != '.'
}

/// Every character is a name character.
pub open spec fn name_text(s: Seq<char>) -> bool {
    forall|i: int| 0 <= i < s.len() ==> name_char(#[trigger] s[i])
}

proof fn lemma_name_text_part(s: Seq<char>, lo: int, hi: int)
    requires
        name_text(s),
        0 <= lo <= hi <= s.len(),
    ensures
        name_text(s.subrange(lo, hi)),
{
    assert forall|i: int| 0 <= i < hi - lo implies name_char(#[trigger] s.subrange(lo, hi)[i]) by {
        assert(s.subrange(lo, hi)[i] == s[lo + i]);
    }
}

proof fn lemma_strip_dots_start(s: Seq<char>)
    ensures
        strip_dots_start(s).len() <= s.len(),
        strip_dots_start(s) == s.subrange(s.len() - strip_dots_start(s).len(), s.len() as int),
        strip_dots_start(s).len() == 0 || strip_dots_start(s)[0] != '.',
    decreases s.len(),
{
    if s.len() > 0 && s[0] == '.' {
        lemma_strip_dots_start(s.drop_first());
        let t = strip_dots_start(s.drop_first());
        assert(s.drop_first().subrange(s.drop_first().len() - t.len(), s.drop_first().len() as int)
            =~= s.subrange(s.len() - t.len(), s.len() as int));
    } else {
        assert(s.subrange(0, s.len() as int) =~= s);
    }
}

proof fn lemma_strip_dots_end(s: Seq<char>)
    ensures
        strip_dots_end(s).len() <= s.len(),
        strip_dots_end(s) == s.subrange(0, strip_dots_end(s).len() as int),
    decreases s.len(),
{
    if s.len() > 0 && s.last() == '.' {
        lemma_strip_dots_end(s.drop_last());
        let t = strip_dots_end(s.drop_last());
        assert(s.drop_last().subrange(0, t.len() as int) =~= s.subrange(0, t.len() as int));
    } else {
        assert(s.subrange(0, s.len() as int) =~= s);
    }
}

/// A sanitized file name is always a safe tunnel name.
pub proof fn law_sanitized_safe(s: Seq<char>)
    ensures
        safe_name(sanitized(s)),
{
    let a = name_chars(s);
    assert(name_text(a));
    let b = strip_dots_start(a);
    lemma_strip_dots_start(a);
    lemma_name_text_part(a, a.len() - b.len(), a.len() as int);
    let c = strip_dots_end(b);
    lemma_strip_dots_end(b);
    lemma_name_text_part(b, 0, c.len() as int);
    let t = if c.len() == 0 {
        "tunnel"@
    } else {
        c
    };
    if c.len() == 0 {
        reveal_strlit("tunnel");
        assert(name_text(t)) by {
            assert forall|i: int| 0 <= i < t.len() implies name_char(#[trigger] t[i]) by {
                assert(is_ascii_alnum(t[i]));
            }
        }
        assert(t[0] == 't');
    } else {
        assert(c[0] == b[0]);
    }
    let r = take_chars(t, 15);
    if t.len() > 15 {
        lemma_name_text_part(t, 0, 15);
        assert(r[0] == t[0]);
    }
}

proof fn lemma_numbered_safe(b: Seq<char>, n: nat)
    requires
        safe_name(b),
        n < 1000,
    ensures
        safe_name(numbered(b, n)),
{
    crate::text::lemma_dec_short(n);
    crate::text::lemma_dec_digits(n);
    let d = dec(n);
    let keep = 15 - (1 + d.len());
    let h = take_chars(b, keep);
    if b.len() > keep {
        lemma_name_text_part(b, 0, keep);
    }
    assert(h.len() >= 1 && h[0] == b[0]);
    let r = h + seq!['-'] + d;
    assert forall|i: int| 0 <= i < r.len() implies name_char(#[trigger] r[i]) by {
        if i < h.len() {
            assert(r[i] == h[i]);
        } else if i == h.len() {
            assert(r[i] == '-');
        } else {
            assert(r[i] == d[i - h.len() - 1]);
            assert(crate::text::is_digit(d[i - h.len() - 1]));
        }
    }
    assert(r[0] == h[0]);
}

proof fn lemma_first_free(ts: Seq<TunnelView>, b: Seq<char>, n: nat)
    requires
        n <= 1000,
    ensures
        (exists|k: nat| n <= k < 1000 && first_free(ts, b, n) == numbered(b, k) && !name_taken(ts, numbered(b, k)))
            || (first_free(ts, b, n) == b && forall|k: nat| n <= k < 1000 ==> name_taken(ts, #[trigger] numbered(b, k))),
    decreases 1000 - n,
{
    if n < 1000 {
        if name_taken(ts, numbered(b, n)) {
            lemma_first_free(ts, b, n + 1);
            if first_free(ts, b, n + 1) == b && forall|k: nat| n + 1 <= k < 1000 ==> name_taken(ts, #[trigger] numbered(b, k)) {
                assert forall|k: nat| n <= k < 1000 implies name_taken(ts, #[trigger] numbered(b, k)) by {
                    if k > n {
                        assert(n + 1 <= k);
                    }
                }
            }
        }
    }
}

/// The name `unique_name` picks is a safe tunnel name, and no tunnel has it
/// unless the sanitized base and every numbered variant from `-2` to `-999`
/// are all taken (then the sanitized base itself is given back).
pub proof fn law_unique_name(ts: Seq<TunnelView>, base: Seq<char>)
    ensures
        safe_name(unique_spec(ts, base)),
        !name_taken(ts, unique_spec(ts, base)) || (unique_spec(ts, base) == sanitized(base) && forall|k: nat|
            2 <= k < 1000 ==> name_taken(ts, #[trigger] numbered(sanitized(base), k))),
{
    let b = sanitized(base);
    law_sanitized_safe(base);
    if name_taken(ts, b) {
        lemma_first_free(ts, b, 2);
        if exists|k: nat| 2 <= k < 1000 && first_free(ts, b, 2) == numbered(b, k) && !name_taken(ts, numbered(b, k)) {
            let k = choose|k: nat| 2 <= k < 1000 && first_free(ts, b, 2) == numbered(b, k) && !name_taken(ts, numbered(b, k));
            lemma_numbered_safe(b, k);
        }
    }
}

/// Every tunnel that `list_tunnels` lists has a name that is not blank and
/// has no whitespace at either end.
pub proof fn law_listed_names_clean(ls: Seq<Seq<char>>)
    ensures
        forall|i: int| 0 <= i < listed_names(ls).len() ==> (#[trigger] listed_names(ls)[i]).len() > 0
            && crate::text::is_trimmed(listed_names(ls)[i]),
    decreases ls.len(),
{
    if ls.len() > 0 {
        law_listed_names_clean(ls.drop_last());
        crate::text::lemma_trim_shape(ls.last());
        let prev = listed_names(ls.drop_last());
        assert forall|i: int| 0 <= i < listed_names(ls).len() implies (#[trigger] listed_names(ls)[i]).len() > 0
            && crate::text::is_trimmed(listed_names(ls)[i]) by {
            if i < prev.len() {
                assert(listed_names(ls)[i] == prev[i]);
            }
        }
    }
}

/// A file name made only of dots (or empty) becomes `tunnel`, and a
/// sanitized name that does not end in `.` is sanitized to itself.
pub proof fn law_sanitize_defaults_and_settles(s: Seq<char>)
    ensures
        (forall|i: int| 0 <= i < s.len() ==> #[trigger] s[i] == '.') ==> sanitized(s) == "tunnel"@,
        sanitized(s).last() != '.' ==> sanitized(sanitized(s)) == sanitized(s),
{
    reveal_strlit("tunnel");
    if forall|i: int| 0 <= i < s.len() ==> #[trigger] s[i] == '.' {
        let a = name_chars(s);
        lemma_strip_dots_start(a);
        let b = strip_dots_start(a);
        if b.len() > 0 {
            assert(b[0] == a[a.len() - b.len()]);
        }
        assert(b.len() == 0);
        lemma_strip_dots_end(b);
        assert(strip_dots_end(b).len() == 0);
    }
    let r = sanitized(s);
    law_sanitized_safe(s);
    if r.last() != '.' {
        assert(name_chars(r) =~= r);
        assert(strip_dots_start(r) == r);
        assert(strip_dots_end(r) == r);
        assert(take_chars(r, 15) == r);
    }
}

// ---------------------------------------------------------------------------
// Laws on validation
// ---------------------------------------------------------------------------

/// A peer passes every check of validation.
pub open spec fn peer_valid(p: ParsedPeerView) -> bool {
    &&& wg_key(p.public_key)
    &&& (p.preshared_key.len() == 0 || wg_key(p.preshared_key))
    &&& first_bad_inet(split_on(p.allowed_ips, ',')) is None
    &&& (p.endpoint.len() == 0 || endpoint_ok(p.endpoint))
    &&& (p.keepalive.len() == 0 || parse_uint(p.keepalive, 0xffff_ffff) is Some)
}

/// Every piece of text made only of whitespace is whitespace only.
proof fn lemma_split_blank(s: Seq<char>, c: char)
    requires
        !crate::text::is_ws(c),
        forall|j: int| 0 <= j < s.len() ==> crate::text::is_ws(#[trigger] s[j]),
    ensures
        forall|i: int, j: int| 0 <= i < crate::text::split_acc(s, c).0.len() && 0 <= j < crate::text::split_acc(s, c).0[i].len()
            ==> crate::text::is_ws(#[trigger] crate::text::split_acc(s, c).0[i][j]),
        forall|j: int| 0 <= j < crate::text::split_acc(s, c).1.len() ==> crate::text::is_ws(#[trigger] crate::text::split_acc(s, c).1[j]),
    decreases s.len(),
{
    if s.len() > 0 {
        assert forall|j: int| 0 <= j < s.drop_last().len() implies crate::text::is_ws(#[trigger] s.drop_last()[j]) by {
            assert(s.drop_last()[j] == s[j]);
        }
        lemma_split_blank(s.drop_last(), c);
        let prev = crate::text::split_acc(s.drop_last(), c);
        assert(crate::text::is_ws(s[s.len() - 1]));
        let now = crate::text::split_acc(s, c);
        assert forall|i: int, j: int| 0 <= i < now.0.len() && 0 <= j < now.0[i].len()
            implies crate::text::is_ws(#[trigger] now.0[i][j]) by {
            if i < prev.0.len() {
                assert(now.0[i] == prev.0[i]);
            } else {
                assert(now.0[i] == prev.1);
            }
        }
        assert forall|j: int| 0 <= j < now.1.len() implies crate::text::is_ws(#[trigger] now.1[j]) by {
            if s.last() != c && j < prev.1.len() {
                assert(now.1[j] == prev.1[j]);
            }
        }
    }
}

/// A comma-separated list whose pieces all look like addresses is not
/// blank.
proof fn lemma_good_list_nonblank(s: Seq<char>)
    ensures
        first_bad_inet(split_on(s, ',')) is None ==> trim(s).len() > 0,
{
    if trim(s).len() == 0 {
        if exists|j: int| 0 <= j < s.len() && !crate::text::is_ws(#[trigger] s[j]) {
            let j = choose|j: int| 0 <= j < s.len() && !crate::text::is_ws(#[trigger] s[j]);
            crate::text::lemma_trim_nonblank(s, j);
        }
        lemma_split_blank(s, ',');
        let ps = split_on(s, ',');
        let p0 = ps[0];
        assert forall|j: int| 0 <= j < p0.len() implies crate::text::is_ws(#[trigger] p0[j]) by {
            let a = crate::text::split_acc(s, ',');
            if a.0.len() > 0 {
                assert(p0 == a.0[0]);
            } else {
                assert(p0 == a.1);
            }
        }
        crate::text::lemma_trim_blank(p0);
        assert(trim(p0).subrange(0, first_pos(trim(p0), '/')).len() == 0);
        assert(!inet_like(p0));
    }
}

proof fn lemma_peer_error_none(p: ParsedPeerView, n: nat)
    ensures
        peer_error(p, n) is None <==> peer_valid(p),
{
    lemma_good_list_nonblank(p.allowed_ips);
    if p.public_key.len() == 0 {
        assert(!wg_key(p.public_key)) by {
            crate::text::lemma_trim_shape(p.public_key);
        }
    }
}

proof fn lemma_peers_error(ps: Seq<ParsedPeerView>, n: nat)
    ensures
        peers_error(ps, n) is None <==> forall|i: int| 0 <= i < ps.len() ==> peer_valid(#[trigger] ps[i]),
        peers_error(ps, n) matches Some(e) ==> e.len() > 0 && e[0] == 'P',
    decreases ps.len(),
{
    reveal_strlit("Peer ");
    if ps.len() > 0 {
        lemma_peer_error_none(ps[0], n);
        lemma_peers_error(ps.drop_first(), n + 1);
        if peer_error(ps[0], n) is None {
            assert((forall|i: int| 0 <= i < ps.len() ==> peer_valid(#[trigger] ps[i])) <==> (forall|j: int|
                0 <= j < ps.drop_first().len() ==> peer_valid(#[trigger] ps.drop_first()[j]))) by {
                if forall|j: int| 0 <= j < ps.drop_first().len() ==> peer_valid(#[trigger] ps.drop_first()[j]) {
                    assert forall|i: int| 0 <= i < ps.len() implies peer_valid(#[trigger] ps[i]) by {
                        if i > 0 {
                            assert(ps[i] == ps.drop_first()[i - 1]);
                        }
                    }
                }
                if forall|i: int| 0 <= i < ps.len() ==> peer_valid(#[trigger] ps[i]) {
                    assert forall|j: int| 0 <= j < ps.drop_first().len() implies peer_valid(#[trigger] ps.drop_first()[j]) by {
                        assert(ps.drop_first()[j] == ps[j + 1]);
                    }
                }
            }
        } else {
            assert(!peer_valid(ps[0]));
            let e = peer_error(ps[0], n).unwrap();
            assert(e[0] == 'P');
        }
    }
}

/// A config passes validation exactly when it has an `[Interface]` line, a
/// valid private key, an address list whose every piece looks like an
/// address, a listen port that is empty or valid, at least one peer, and
/// every peer passes the peer checks.
pub proof fn law_validation_checks(text: Seq<char>)
    ensures
        config_error(text) is None <==> ({
            let c = parsed(text);
            &&& has_iface_line(text)
            &&& c.private_key matches Some(k) && wg_key(k)
            &&& c.address matches Some(a) && first_bad_inet(split_on(a, ',')) is None
            &&& (c.listen_port matches Some(lp) ==> lp.len() == 0 || !bad_port(lp))
            &&& c.peers.len() > 0
            &&& forall|i: int| 0 <= i < c.peers.len() ==> peer_valid(#[trigger] c.peers[i])
        }),
{
    let c = parsed(text);
    lemma_peers_error(c.peers, 1);
    match c.address {
        Some(a) => {
            lemma_good_list_nonblank(a);
            if a.len() == 0 {
                assert(trim(a) =~= a);
            }
        },
        None => {},
    }
    match c.private_key {
        Some(k) => {
            if k.len() == 0 {
                crate::text::lemma_trim_shape(k);
            }
        },
        None => {},
    }
}

/// The missing-`[Interface]` error is given exactly when no line is an
/// `[Interface]` header.
pub proof fn law_missing_interface(text: Seq<char>)
    ensures
        config_error(text) == Some("Missing an [Interface] section."@) <==> !has_iface_line(text),
{
    reveal_strlit("Missing an [Interface] section.");
    reveal_strlit("[Interface] is missing PrivateKey.");
    reveal_strlit("PrivateKey is not a valid WireGuard key (expected 44-char base64).");
    reveal_strlit("[Interface] is missing Address.");
    reveal_strlit("Address “");
    reveal_strlit("ListenPort “");
    reveal_strlit("At least one [Peer] section is required.");
    let c = parsed(text);
    lemma_peers_error(c.peers, 1);
    let m = "Missing an [Interface] section."@;
    if has_iface_line(text) {
        match config_error(text) {
            Some(e) => {
                assert(e.len() > 0 && e[0] != 'M');
                assert(m[0] == 'M');
            },
            None => {},
        }
    }
}


/// A bare address with no `/` (only hex digits, `.` and `:`, holding a `.`
/// or a `:`) passes the address check: the prefix length is optional.
pub proof fn law_inet_accepts_bare_address(s: Seq<char>)
    requires
        s.len() > 0,
        forall|i: int| 0 <= i < s.len() ==> inet_char(#[trigger] s[i]),
        contains_char(s, '.') || contains_char(s, ':'),
    ensures
        inet_like(s),
{
    assert(!is_ws(s[0]) && !is_ws(s.last())) by {
        assert(inet_char(s[0]));
        assert(inet_char(s[s.len() - 1]));
    }
    lemma_trim_start_noop(s);
    lemma_trim_end_noop(s);
    assert(trim(s) == s);
    lemma_first_pos(s, '/');
    if first_pos(s, '/') < s.len() {
        assert(inet_char(s[first_pos(s, '/')]));
    }
    assert(s.subrange(0, s.len() as int) =~= s);
}

/// The address check looks only at the part before the `/`: whatever
/// follows it, `a/p` passes exactly when the bare `a` does.
pub proof fn law_inet_ignores_prefix_length(a: Seq<char>, p: Seq<char>)
    requires
        forall|i: int| 0 <= i < a.len() ==> inet_char(#[trigger] a[i]),
        p.len() == 0 || !is_ws(p.last()),
    ensures
        inet_like(a + "/"@ + p) == (a.len() > 0 && (contains_char(a, '.') || contains_char(a, ':'))),
{
    reveal_strlit("/");
    let s = a + "/"@ + p;
    assert(s[a.len() as int] == '/');
    assert(s.len() > 0 && (s.len() == 0 || !is_ws(s.last()))) by {
        if p.len() > 0 {
            assert(s.last() == p.last());
        } else {
            assert(s.last() == '/');
        }
    }
    if a.len() > 0 {
        assert(s[0] == a[0]);
        assert(inet_char(a[0]));
    }
    lemma_trim_start_noop(s);
    lemma_trim_end_noop(s);
    assert(trim(s) == s);
    lemma_first_pos(s, '/');
    if first_pos(s, '/') < a.len() {
        let k = first_pos(s, '/');
        assert(s[k] == a[k]);
        assert(inet_char(a[k]));
    }
    assert(first_pos(s, '/') == a.len());
    assert(s.subrange(0, a.len() as int) =~= a);
    if a.len() > 0 && (contains_char(a, '.') || contains_char(a, ':')) {
        assert(inet_like(s));
    }
}

/// A listed tunnel is up exactly when its name is one of the words of the
/// helper's `active` output, wherever that word stands among them.
pub proof fn law_listed_active(names: Seq<char>, active: Seq<char>, i: int)
    requires
        0 <= i < tunnel_list(names, active).len(),
    ensures
        tunnel_list(names, active)[i].name == listed_names(lines(names))[i],
        tunnel_list(names, active)[i].active <==> exists|j: int|
            0 <= j < words(active).len() && #[trigger] words(active)[j] == tunnel_list(names, active)[i].name,
{
}

} // verus!
