//! The structured form editor's mapping between a raw tunnel config and the
//! fixed set of Interface/Peer fields it shows.
use vstd::prelude::*;
use crate::text::{
    lemma_views_push, push_chars, push_str,
    chars_eq, chars_of, copy_range, find_char, has_prefix, lemma_first_pos, lines, lower_seq,
    lower_vec, split_lines, split_once, starts_with, string_of, trim, trimmed, views,
};

verus! {

/// The structured peer fields shown in the form editor.
#[derive(Clone)]
pub struct PeerFields {
    pub peer_public_key: String,
    pub preshared_key: String,
    pub allowed_ips: String,
    pub endpoint: String,
    pub keepalive: String,
}

/// The structured fields shown in the form editor (Interface + N peers).
#[derive(Clone)]
pub struct Fields {
    pub private_key: String,
    pub address: String,
    pub dns: String,
    pub listen_port: String,
    pub mtu: String,
    pub peers: Vec<PeerFields>,
}

/// What a `PeerFields` holds.
pub struct PeerFieldsView {
    pub peer_public_key: Seq<char>,
    pub preshared_key: Seq<char>,
    pub allowed_ips: Seq<char>,
    pub endpoint: Seq<char>,
    pub keepalive: Seq<char>,
}

/// What a `Fields` holds.
pub struct FieldsView {
    pub private_key: Seq<char>,
    pub address: Seq<char>,
    pub dns: Seq<char>,
    pub listen_port: Seq<char>,
    pub mtu: Seq<char>,
    pub peers: Seq<PeerFieldsView>,
}

impl View for PeerFields {
    type V = PeerFieldsView;

    open spec fn view(&self) -> PeerFieldsView {
        PeerFieldsView {
            peer_public_key: self.peer_public_key@,
            preshared_key: self.preshared_key@,
            allowed_ips: self.allowed_ips@,
            endpoint: self.endpoint@,
            keepalive: self.keepalive@,
        }
    }
}

pub open spec fn peer_views(s: Seq<PeerFields>) -> Seq<PeerFieldsView> {
    Seq::new(s.len(), |i: int| s[i]@)
}

impl View for Fields {
    type V = FieldsView;

    open spec fn view(&self) -> FieldsView {
        FieldsView {
            private_key: self.private_key@,
            address: self.address@,
            dns: self.dns@,
            listen_port: self.listen_port@,
            mtu: self.mtu@,
            peers: peer_views(self.peers@),
        }
    }
}

pub open spec fn empty_peer() -> PeerFieldsView {
    PeerFieldsView {
        peer_public_key: Seq::empty(),
        preshared_key: Seq::empty(),
        allowed_ips: Seq::empty(),
        endpoint: Seq::empty(),
        keepalive: Seq::empty(),
    }
}

pub open spec fn empty_fields() -> FieldsView {
    FieldsView {
        private_key: Seq::empty(),
        address: Seq::empty(),
        dns: Seq::empty(),
        listen_port: Seq::empty(),
        mtu: Seq::empty(),
        peers: Seq::empty(),
    }
}

impl Default for PeerFields {
    fn default() -> (r: PeerFields)
        ensures
            r@ == empty_peer(),
    {
        PeerFields {
            peer_public_key: String::new(),
            preshared_key: String::new(),
            allowed_ips: String::new(),
            endpoint: String::new(),
            keepalive: String::new(),
        }
    }
}

impl Default for Fields {
    fn default() -> (r: Fields)
        ensures
            r@ == empty_fields(),
    {
        let r = Fields {
            private_key: String::new(),
            address: String::new(),
            dns: String::new(),
            listen_port: String::new(),
            mtu: String::new(),
            peers: Vec::new(),
        };
        assert(r@.peers =~= Seq::<PeerFieldsView>::empty());
        r
    }
}

/// `f` with one empty peer added when it has none.
pub open spec fn ensure_peer_spec(f: FieldsView) -> FieldsView {
    if f.peers.len() == 0 {
        FieldsView { peers: seq![empty_peer()], ..f }
    } else {
        f
    }
}

pub proof fn lemma_peer_views_push(s: Seq<PeerFields>, p: PeerFields)
    ensures
        peer_views(s.push(p)) == peer_views(s).push(p@),
{
    assert(peer_views(s.push(p)) =~= peer_views(s).push(p@));
}

pub proof fn lemma_peer_views_drop_last(s: Seq<PeerFields>)
    requires
        s.len() > 0,
    ensures
        peer_views(s.drop_last()) == peer_views(s).drop_last(),
{
    assert(peer_views(s.drop_last()) =~= peer_views(s).drop_last());
}

impl Fields {
    pub fn ensure_peer(&mut self)
        ensures
            final(self)@ == ensure_peer_spec(old(self)@),
    {
        if self.peers.len() == 0 {
            let p = PeerFields::default();
            proof {
                lemma_peer_views_push(self.peers@, p);
            }
            self.peers.push(p);
            assert(self@.peers =~= seq![empty_peer()]);
        }
    }
}

// ---------------------------------------------------------------------------
// Line-level helpers
// ---------------------------------------------------------------------------

/// Value to the right of the first `=` on a `key = value` line, trimmed
/// (empty when there is no `=`).
pub open spec fn kv_value(line: Seq<char>) -> Seq<char> {
    match split_once(line, '=') {
        Some((_, v)) => trim(v),
        None => Seq::empty(),
    }
}

/// The lower-cased, trimmed key to the left of the first `=`; `None` for a
/// line without `=`.
pub open spec fn line_key(line: Seq<char>) -> Option<Seq<char>> {
    match split_once(line, '=') {
        Some((k, _)) => Some(lower_seq(trim(k))),
        None => None,
    }
}

fn kv_value_exec(line: &[char]) -> (r: Vec<char>)
    ensures
        r@ == kv_value(line@),
{
    let p = find_char(line, '=');
    proof {
        lemma_first_pos(line@, '=');
    }
    if p < line.len() {
        let v = copy_range(line, p + 1, line.len());
        trimmed(v.as_slice())
    } else {
        Vec::new()
    }
}

pub(crate) fn line_key_exec(line: &[char]) -> (r: Option<Vec<char>>)
    ensures
        r matches Some(k) ==> line_key(line@) == Some(k@),
        r is None ==> line_key(line@) is None,
{
    let p = find_char(line, '=');
    proof {
        lemma_first_pos(line@, '=');
    }
    if p < line.len() {
        let k = copy_range(line, 0, p);
        let t = trimmed(k.as_slice());
        Some(lower_vec(t.as_slice()))
    } else {
        None
    }
}

// ---------------------------------------------------------------------------
// Raw config -> fields
// ---------------------------------------------------------------------------

/// Which section the scan of a config is in.
pub enum FormSection {
    Start,
    Interface,
    Peer,
    Other,
}

pub open spec fn assign_iface(f: FieldsView, key: Seq<char>, v: Seq<char>) -> FieldsView {
    if key == "privatekey"@ {
        FieldsView { private_key: v, ..f }
    } else if key == "address"@ {
        FieldsView { address: v, ..f }
    } else if key == "dns"@ {
        FieldsView { dns: v, ..f }
    } else if key == "listenport"@ {
        FieldsView { listen_port: v, ..f }
    } else if key == "mtu"@ {
        FieldsView { mtu: v, ..f }
    } else {
        f
    }
}

pub open spec fn assign_peer(p: PeerFieldsView, key: Seq<char>, v: Seq<char>) -> PeerFieldsView {
    if key == "publickey"@ {
        PeerFieldsView { peer_public_key: v, ..p }
    } else if key == "presharedkey"@ {
        PeerFieldsView { preshared_key: v, ..p }
    } else if key == "allowedips"@ {
        PeerFieldsView { allowed_ips: v, ..p }
    } else if key == "endpoint"@ {
        PeerFieldsView { endpoint: v, ..p }
    } else if key == "persistentkeepalive"@ {
        PeerFieldsView { keepalive: v, ..p }
    } else {
        p
    }
}

/// One line of `config_to_fields`: section headers switch sections (a
/// `[Peer]` header adds a peer), and a mapped `key = value` line sets that
/// field of the interface or of the newest peer. Blank lines, comments,
/// lines without `=` and unknown keys change nothing.
pub open spec fn c2f_step(st: (FieldsView, FormSection), raw: Seq<char>) -> (FieldsView, FormSection) {
    let t = trim(raw);
    let low = lower_seq(t);
    if t.len() == 0 || t[0] == '#' {
        st
    } else if t[0] == '[' {
        if starts_with(low, "[interface]"@) {
            (st.0, FormSection::Interface)
        } else if starts_with(low, "[peer]"@) {
            (FieldsView { peers: st.0.peers.push(empty_peer()), ..st.0 }, FormSection::Peer)
        } else {
            (st.0, FormSection::Other)
        }
    } else {
        match line_key(t) {
            None => st,
            Some(key) => match st.1 {
                FormSection::Interface => (assign_iface(st.0, key, kv_value(t)), st.1),
                FormSection::Peer => if st.0.peers.len() > 0 {
                    (
                        FieldsView {
                            peers: st.0.peers.update(
                                st.0.peers.len() - 1,
                                assign_peer(st.0.peers.last(), key, kv_value(t)),
                            ),
                            ..st.0
                        },
                        st.1,
                    )
                } else {
                    st
                },
                _ => st,
            },
        }
    }
}

pub open spec fn c2f_run(ls: Seq<Seq<char>>) -> (FieldsView, FormSection)
    decreases ls.len(),
{
    if ls.len() == 0 {
        (empty_fields(), FormSection::Start)
    } else {
        c2f_step(c2f_run(ls.drop_last()), ls.last())
    }
}

/// The form fields that `config_to_fields` reads from `cfg`.
pub open spec fn config_fields(cfg: Seq<char>) -> FieldsView {
    ensure_peer_spec(c2f_run(lines(cfg)).0)
}

fn set_iface_field(f: &mut Fields, key: &[char], v: &[char], lits: &Lits)
    requires
        lits.wf(),
    ensures
        final(f)@ == assign_iface(old(f)@, key@, v@),
{
    if chars_eq(key, lits.privatekey.as_slice()) {
        f.private_key = string_of(v);
    } else if chars_eq(key, lits.address.as_slice()) {
        f.address = string_of(v);
    } else if chars_eq(key, lits.dns.as_slice()) {
        f.dns = string_of(v);
    } else if chars_eq(key, lits.listenport.as_slice()) {
        f.listen_port = string_of(v);
    } else if chars_eq(key, lits.mtu.as_slice()) {
        f.mtu = string_of(v);
    }
}

fn set_peer_field(p: &mut PeerFields, key: &[char], v: &[char], lits: &Lits)
    requires
        lits.wf(),
    ensures
        final(p)@ == assign_peer(old(p)@, key@, v@),
{
    if chars_eq(key, lits.publickey.as_slice()) {
        p.peer_public_key = string_of(v);
    } else if chars_eq(key, lits.presharedkey.as_slice()) {
        p.preshared_key = string_of(v);
    } else if chars_eq(key, lits.allowedips.as_slice()) {
        p.allowed_ips = string_of(v);
    } else if chars_eq(key, lits.endpoint.as_slice()) {
        p.endpoint = string_of(v);
    } else if chars_eq(key, lits.persistentkeepalive.as_slice()) {
        p.keepalive = string_of(v);
    }
}

/// The key names and section headers that the form recognises.
struct Lits {
    interface_hdr: Vec<char>,
    peer_hdr: Vec<char>,
    privatekey: Vec<char>,
    address: Vec<char>,
    dns: Vec<char>,
    listenport: Vec<char>,
    mtu: Vec<char>,
    publickey: Vec<char>,
    presharedkey: Vec<char>,
    allowedips: Vec<char>,
    endpoint: Vec<char>,
    persistentkeepalive: Vec<char>,
}

impl Lits {
    spec fn wf(&self) -> bool {
        &&& self.interface_hdr@ == "[interface]"@
        &&& self.peer_hdr@ == "[peer]"@
        &&& self.privatekey@ == "privatekey"@
        &&& self.address@ == "address"@
        &&& self.dns@ == "dns"@
        &&& self.listenport@ == "listenport"@
        &&& self.mtu@ == "mtu"@
        &&& self.publickey@ == "publickey"@
        &&& self.presharedkey@ == "presharedkey"@
        &&& self.allowedips@ == "allowedips"@
        &&& self.endpoint@ == "endpoint"@
        &&& self.persistentkeepalive@ == "persistentkeepalive"@
    }

    fn new() -> (r: Lits)
        ensures
            r.wf(),
    {
        Lits {
            interface_hdr: chars_of("[interface]"),
            peer_hdr: chars_of("[peer]"),
            privatekey: chars_of("privatekey"),
            address: chars_of("address"),
            dns: chars_of("dns"),
            listenport: chars_of("listenport"),
            mtu: chars_of("mtu"),
            publickey: chars_of("publickey"),
            presharedkey: chars_of("presharedkey"),
            allowedips: chars_of("allowedips"),
            endpoint: chars_of("endpoint"),
            persistentkeepalive: chars_of("persistentkeepalive"),
        }
    }
}

/// Parse a raw config into the structured form fields.
pub fn config_to_fields(cfg: &str) -> (r: Fields)
    ensures
        r@ == config_fields(cfg@),
{
    let lits = Lits::new();
    let text = chars_of(cfg);
    let ls = split_lines(text.as_slice());
    let mut f = Fields::default();
    let mut section = FormSection::Start;
    let mut i: usize = 0;
    while i < ls.len()
        invariant
            lits.wf(),
            i <= ls@.len(),
            views(ls@) == lines(cfg@),
            (f@, section) == c2f_run(views(ls@).subrange(0, i as int)),
        decreases ls@.len() - i,
    {
        let ghost pre = views(ls@).subrange(0, i as int);
        assert(views(ls@).subrange(0, i + 1).drop_last() =~= pre);
        assert(views(ls@).subrange(0, i + 1).last() == ls@[i as int]@);
        let t = trimmed(ls[i].as_slice());
        if t.len() == 0 || t[0] == '#' {
        } else if t[0] == '[' {
            let low = lower_vec(t.as_slice());
            if has_prefix(low.as_slice(), lits.interface_hdr.as_slice()) {
                section = FormSection::Interface;
            } else if has_prefix(low.as_slice(), lits.peer_hdr.as_slice()) {
                let p = PeerFields::default();
                proof {
                    lemma_peer_views_push(f.peers@, p);
                }
                f.peers.push(p);
                section = FormSection::Peer;
            } else {
                section = FormSection::Other;
            }
        } else {
            match line_key_exec(t.as_slice()) {
                None => {},
                Some(key) => {
                    match section {
                        FormSection::Interface => {
                            let v = kv_value_exec(t.as_slice());
                            set_iface_field(&mut f, key.as_slice(), v.as_slice(), &lits);
                        },
                        FormSection::Peer => {
                            if f.peers.len() > 0 {
                                let v = kv_value_exec(t.as_slice());
                                let ghost before = f.peers@;
                                let mut p = f.peers.pop().unwrap();
                                proof {
                                    lemma_peer_views_drop_last(before);
                                }
                                set_peer_field(&mut p, key.as_slice(), v.as_slice(), &lits);
                                proof {
                                    lemma_peer_views_push(f.peers@, p);
                                }
                                f.peers.push(p);
                                assert(f@.peers =~= peer_views(before).update(
                                    peer_views(before).len() - 1,
                                    assign_peer(peer_views(before).last(), key@, v@),
                                ));
                            }
                        },
                        _ => {},
                    }
                },
            }
        }
        i += 1;
    }
    assert(views(ls@).subrange(0, ls@.len() as int) =~= views(ls@));
    f.ensure_peer();
    f
}

// ---------------------------------------------------------------------------
// Fields -> raw config
// ---------------------------------------------------------------------------

/// The `key = value` line for one field, or nothing when the trimmed value
/// is empty.
pub open spec fn entry(k: Seq<char>, v: Seq<char>) -> Seq<char> {
    if trim(v).len() == 0 {
        Seq::empty()
    } else {
        k + " = "@ + trim(v) + "\n"@
    }
}

pub open spec fn peer_block(p: PeerFieldsView) -> Seq<char> {
    "\n[Peer]\n"@ + entry("PublicKey"@, p.peer_public_key) + entry("PresharedKey"@, p.preshared_key)
        + entry("AllowedIPs"@, p.allowed_ips) + entry("Endpoint"@, p.endpoint) + entry(
        "PersistentKeepalive"@,
        p.keepalive,
    )
}

pub open spec fn peers_text(ps: Seq<PeerFieldsView>) -> Seq<char>
    decreases ps.len(),
{
    if ps.len() == 0 {
        Seq::empty()
    } else {
        peers_text(ps.drop_last()) + peer_block(ps.last())
    }
}

/// The raw config that `fields_to_config` builds from `f`.
pub open spec fn fields_text(f: FieldsView) -> Seq<char> {
    "[Interface]\n"@ + entry("PrivateKey"@, f.private_key) + entry("Address"@, f.address) + entry(
        "DNS"@,
        f.dns,
    ) + entry("ListenPort"@, f.listen_port) + entry("MTU"@, f.mtu) + peers_text(f.peers)
}

fn push_entry(s: &mut String, k: &str, v: &String)
    ensures
        final(s)@ == old(s)@ + entry(k@, v@),
{
    let cv = chars_of(v.as_str());
    let t = trimmed(cv.as_slice());
    if t.len() > 0 {
        push_str(s, k);
        push_str(s, " = ");
        push_chars(s, t.as_slice());
        push_str(s, "\n");
        assert(s@ =~= old(s)@ + entry(k@, v@));
    } else {
        assert(s@ =~= old(s)@ + entry(k@, v@));
    }
}

fn push_peer_block(s: &mut String, peer: &PeerFields)
    ensures
        final(s)@ == old(s)@ + peer_block(peer@),
{
    push_str(s, "\n[Peer]\n");
    let ghost a = s@;
    push_entry(s, "PublicKey", &peer.peer_public_key);
    let ghost b = s@;
    push_entry(s, "PresharedKey", &peer.preshared_key);
    let ghost c = s@;
    push_entry(s, "AllowedIPs", &peer.allowed_ips);
    let ghost d = s@;
    push_entry(s, "Endpoint", &peer.endpoint);
    push_entry(s, "PersistentKeepalive", &peer.keepalive);
    assert(s@ =~= old(s)@ + peer_block(peer@));
}

/// Build a raw config from the structured form fields (omitting empty ones).
pub fn fields_to_config(f: &Fields) -> (r: String)
    ensures
        r@ == fields_text(f@),
{
    let mut s = String::new();
    push_str(&mut s, "[Interface]\n");
    push_entry(&mut s, "PrivateKey", &f.private_key);
    push_entry(&mut s, "Address", &f.address);
    push_entry(&mut s, "DNS", &f.dns);
    push_entry(&mut s, "ListenPort", &f.listen_port);
    push_entry(&mut s, "MTU", &f.mtu);
    let ghost head = s@;
    let mut i: usize = 0;
    while i < f.peers.len()
        invariant
            i <= f.peers@.len(),
            s@ == head + peers_text(peer_views(f.peers@).subrange(0, i as int)),
        decreases f.peers@.len() - i,
    {
        let peer = &f.peers[i];
        let ghost ps = peer_views(f.peers@).subrange(0, i + 1);
        assert(ps.drop_last() =~= peer_views(f.peers@).subrange(0, i as int));
        assert(ps.last() == peer@);
        assert(peers_text(ps) == peers_text(ps.drop_last()) + peer_block(ps.last()));
        push_peer_block(&mut s, peer);
        assert(s@ =~= head + peers_text(ps));
        i += 1;
    }
    assert(peer_views(f.peers@).subrange(0, f.peers@.len() as int) =~= peer_views(f.peers@));
    assert(s@ =~= fields_text(f@));
    s
}

// ---------------------------------------------------------------------------
// Whether the form can represent a config
// ---------------------------------------------------------------------------

pub open spec fn iface_key(k: Seq<char>) -> bool {
    k == "privatekey"@ || k == "address"@ || k == "dns"@ || k == "listenport"@ || k == "mtu"@
}

pub open spec fn peer_key(k: Seq<char>) -> bool {
    k == "publickey"@ || k == "presharedkey"@ || k == "allowedips"@ || k == "endpoint"@ || k
        == "persistentkeepalive"@
}

/// Scan state of `form_representable`: peers seen, current section, keys
/// already set in the interface and in the current peer, and whether the
/// scan has already refused the config.
pub struct RepState {
    pub peers: nat,
    pub section: FormSection,
    pub iface_seen: Seq<Seq<char>>,
    pub peer_seen: Seq<Seq<char>>,
    pub failed: bool,
}

pub open spec fn rep_fail(st: RepState) -> RepState {
    RepState { failed: true, ..st }
}

/// One line of `form_representable`. A config is refused at a comment, an
/// unknown section, a line without `=`, a key the form does not map for its
/// section (or outside any section), or a key repeated within one section.
pub open spec fn rep_step(st: RepState, raw: Seq<char>) -> RepState {
    let t = trim(raw);
    let low = lower_seq(t);
    if st.failed || t.len() == 0 {
        st
    } else if t[0] == '#' {
        rep_fail(st)
    } else if t[0] == '[' {
        if starts_with(low, "[peer]"@) {
            RepState {
                peers: st.peers + 1,
                section: FormSection::Peer,
                peer_seen: Seq::empty(),
                ..st
            }
        } else if starts_with(low, "[interface]"@) {
            RepState { section: FormSection::Interface, ..st }
        } else {
            rep_fail(st)
        }
    } else {
        match line_key(t) {
            None => rep_fail(st),
            Some(key) => match st.section {
                FormSection::Interface => if iface_key(key) && !st.iface_seen.contains(key) {
                    RepState { iface_seen: st.iface_seen.push(key), ..st }
                } else {
                    rep_fail(st)
                },
                FormSection::Peer => if peer_key(key) && !st.peer_seen.contains(key) {
                    RepState { peer_seen: st.peer_seen.push(key), ..st }
                } else {
                    rep_fail(st)
                },
                _ => rep_fail(st),
            },
        }
    }
}

pub open spec fn rep_init() -> RepState {
    RepState {
        peers: 0,
        section: FormSection::Start,
        iface_seen: Seq::empty(),
        peer_seen: Seq::empty(),
        failed: false,
    }
}

pub open spec fn rep_run(ls: Seq<Seq<char>>) -> RepState
    decreases ls.len(),
{
    if ls.len() == 0 {
        rep_init()
    } else {
        rep_step(rep_run(ls.drop_last()), ls.last())
    }
}

/// Whether the form can represent `cfg`: no line is refused and there is at
/// least one `[Peer]`.
pub open spec fn representable(cfg: Seq<char>) -> bool {
    let st = rep_run(lines(cfg));
    !st.failed && st.peers > 0
}

fn seen_contains(seen: &Vec<Vec<char>>, key: &[char]) -> (r: bool)
    ensures
        r == views(seen@).contains(key@),
{
    let mut i: usize = 0;
    while i < seen.len()
        invariant
            i <= seen@.len(),
            forall|j: int| 0 <= j < i ==> seen@[j]@ != key@,
        decreases seen@.len() - i,
    {
        if chars_eq(seen[i].as_slice(), key) {
            assert(views(seen@)[i as int] == key@);
            return true;
        }
        i += 1;
    }
    assert forall|j: int| 0 <= j < views(seen@).len() implies views(seen@)[j] != key@ by {
        assert(views(seen@)[j] == seen@[j]@);
    }
    false
}

/// Whether the form view can faithfully represent this config. The form maps a
/// fixed set of Interface/Peer keys; scripts, routing directives, unknown keys,
/// and unknown sections would be silently dropped on a round-trip, so such
/// configs must stay in raw-text mode.
pub fn form_representable(cfg: &str) -> (r: bool)
    ensures
        r == representable(cfg@),
{
    let lits = Lits::new();
    let text = chars_of(cfg);
    let ls = split_lines(text.as_slice());
    let mut peers: usize = 0;
    let mut section = FormSection::Start;
    let mut iface_seen: Vec<Vec<char>> = Vec::new();
    let mut peer_seen: Vec<Vec<char>> = Vec::new();
    let mut i: usize = 0;
    assert(views(iface_seen@) =~= Seq::<Seq<char>>::empty());
    assert(views(peer_seen@) =~= Seq::<Seq<char>>::empty());
    assert(views(ls@).subrange(0, 0) =~= Seq::<Seq<char>>::empty());
    while i < ls.len()
        invariant
            lits.wf(),
            i <= ls@.len(),
            peers <= i,
            views(ls@) == lines(cfg@),
            rep_run(views(ls@).subrange(0, i as int)) == (RepState {
                peers: peers as nat,
                section: section,
                iface_seen: views(iface_seen@),
                peer_seen: views(peer_seen@),
                failed: false,
            }),
        decreases ls@.len() - i,
    {
        let ghost pre = views(ls@).subrange(0, i as int);
        assert(views(ls@).subrange(0, i + 1).drop_last() =~= pre);
        assert(views(ls@).subrange(0, i + 1).last() == ls@[i as int]@);
        let t = trimmed(ls[i].as_slice());
        if t.len() == 0 {
        } else if t[0] == '#' {
            proof {
                lemma_rep_failed_stays(views(ls@), i as int + 1);
            }
            return false;
        } else if t[0] == '[' {
            let low = lower_vec(t.as_slice());
            if has_prefix(low.as_slice(), lits.peer_hdr.as_slice()) {
                peers += 1;
                section = FormSection::Peer;
                peer_seen = Vec::new();
                assert(views(peer_seen@) =~= Seq::<Seq<char>>::empty());
            } else if has_prefix(low.as_slice(), lits.interface_hdr.as_slice()) {
                section = FormSection::Interface;
            } else {
                proof {
                    lemma_rep_failed_stays(views(ls@), i as int + 1);
                }
                return false;
            }
        } else {
            match line_key_exec(t.as_slice()) {
                None => {
                    proof {
                        lemma_rep_failed_stays(views(ls@), i as int + 1);
                    }
                    return false;
                },
                Some(key) => {
                    let ok = match section {
                        FormSection::Interface => {
                            if is_iface_key(key.as_slice(), &lits) && !seen_contains(&iface_seen, key.as_slice()) {
                                proof {
                                    lemma_views_push(iface_seen@, key);
                                }
                                iface_seen.push(key);
                                true
                            } else {
                                false
                            }
                        },
                        FormSection::Peer => {
                            if is_peer_key(key.as_slice(), &lits) && !seen_contains(&peer_seen, key.as_slice()) {
                                proof {
                                    lemma_views_push(peer_seen@, key);
                                }
                                peer_seen.push(key);
                                true
                            } else {
                                false
                            }
                        },
                        _ => false,
                    };
                    if !ok {
                        proof {
                            lemma_rep_failed_stays(views(ls@), i as int + 1);
                        }
                        return false;
                    }
                },
            }
        }
        i += 1;
    }
    assert(views(ls@).subrange(0, ls@.len() as int) =~= views(ls@));
    peers > 0
}

fn is_iface_key(k: &[char], lits: &Lits) -> (r: bool)
    requires
        lits.wf(),
    ensures
        r == iface_key(k@),
{
    chars_eq(k, lits.privatekey.as_slice()) || chars_eq(k, lits.address.as_slice()) || chars_eq(
        k,
        lits.dns.as_slice(),
    ) || chars_eq(k, lits.listenport.as_slice()) || chars_eq(k, lits.mtu.as_slice())
}

fn is_peer_key(k: &[char], lits: &Lits) -> (r: bool)
    requires
        lits.wf(),
    ensures
        r == peer_key(k@),
{
    chars_eq(k, lits.publickey.as_slice()) || chars_eq(k, lits.presharedkey.as_slice())
        || chars_eq(k, lits.allowedips.as_slice()) || chars_eq(k, lits.endpoint.as_slice())
        || chars_eq(k, lits.persistentkeepalive.as_slice())
}

/// Once the scan has refused a config, later lines do not change that.
pub proof fn lemma_rep_failed_stays(ls: Seq<Seq<char>>, k: int)
    requires
        0 <= k <= ls.len(),
        rep_run(ls.subrange(0, k)).failed,
    ensures
        rep_run(ls).failed,
    decreases ls.len() - k,
{
    if k < ls.len() {
        assert(ls.subrange(0, k + 1).drop_last() =~= ls.subrange(0, k));
        lemma_rep_failed_stays(ls, k + 1);
    } else {
        assert(ls.subrange(0, k) =~= ls);
    }
}

} // verus!
