//! What the form editor's two directions promise together: fields written out
//! and read back keep their (trimmed) values, the written config is one the
//! form can represent, and a read-write-read cycle changes nothing.
use vstd::prelude::*;
use crate::text::{
    contains_char, is_trimmed, is_ws, join_lines, lemma_join_append, lemma_lines_join,
    lemma_lines_no_newline, lemma_first_pos, lemma_trim_after_ws, lemma_trim_before_ws,
    lemma_trim_noop, lemma_trim_not_in, lemma_trim_shape, lines, lower_seq, plain_line,
    starts_with, trim, first_pos,
};
use crate::ui_bridge::editor_form::{
    iface_key, peer_key, rep_init, rep_run, rep_step, representable, RepState,
    assign_iface, assign_peer, c2f_run, c2f_step, config_fields, empty_fields, empty_peer,
    ensure_peer_spec, entry, fields_text, kv_value, line_key, peer_block, peers_text, FieldsView,
    FormSection, PeerFieldsView,
};

verus! {

// ---------------------------------------------------------------------------
// Normal form of fields
// ---------------------------------------------------------------------------

/// A peer with every field trimmed.
pub open spec fn trim_peer(p: PeerFieldsView) -> PeerFieldsView {
    PeerFieldsView {
        peer_public_key: trim(p.peer_public_key),
        preshared_key: trim(p.preshared_key),
        allowed_ips: trim(p.allowed_ips),
        endpoint: trim(p.endpoint),
        keepalive: trim(p.keepalive),
    }
}

pub open spec fn trim_peers(ps: Seq<PeerFieldsView>) -> Seq<PeerFieldsView> {
    Seq::new(ps.len(), |i: int| trim_peer(ps[i]))
}

/// What the form keeps of `f`: every field trimmed, and at least one peer.
pub open spec fn normalized(f: FieldsView) -> FieldsView {
    FieldsView {
        private_key: trim(f.private_key),
        address: trim(f.address),
        dns: trim(f.dns),
        listen_port: trim(f.listen_port),
        mtu: trim(f.mtu),
        peers: if f.peers.len() == 0 {
            seq![empty_peer()]
        } else {
            trim_peers(f.peers)
        },
    }
}

pub open spec fn peer_single_line(p: PeerFieldsView) -> bool {
    &&& !contains_char(p.peer_public_key, '\n')
    &&& !contains_char(p.preshared_key, '\n')
    &&& !contains_char(p.allowed_ips, '\n')
    &&& !contains_char(p.endpoint, '\n')
    &&& !contains_char(p.keepalive, '\n')
}

/// No field of `f` spans more than one line.
pub open spec fn single_line_fields(f: FieldsView) -> bool {
    &&& !contains_char(f.private_key, '\n')
    &&& !contains_char(f.address, '\n')
    &&& !contains_char(f.dns, '\n')
    &&& !contains_char(f.listen_port, '\n')
    &&& !contains_char(f.mtu, '\n')
    &&& forall|i: int| 0 <= i < f.peers.len() ==> peer_single_line(#[trigger] f.peers[i])
}

// ---------------------------------------------------------------------------
// The lines that `fields_to_config` writes
// ---------------------------------------------------------------------------

pub open spec fn entry_lines(k: Seq<char>, v: Seq<char>) -> Seq<Seq<char>> {
    if trim(v).len() == 0 {
        Seq::empty()
    } else {
        seq![k + " = "@ + trim(v)]
    }
}

pub open spec fn iface_lines(f: FieldsView) -> Seq<Seq<char>> {
    seq!["[Interface]"@] + entry_lines("PrivateKey"@, f.private_key) + entry_lines(
        "Address"@,
        f.address,
    ) + entry_lines("DNS"@, f.dns) + entry_lines("ListenPort"@, f.listen_port) + entry_lines(
        "MTU"@,
        f.mtu,
    )
}

pub open spec fn peer_lines(p: PeerFieldsView) -> Seq<Seq<char>> {
    seq![Seq::empty(), "[Peer]"@] + entry_lines("PublicKey"@, p.peer_public_key) + entry_lines(
        "PresharedKey"@,
        p.preshared_key,
    ) + entry_lines("AllowedIPs"@, p.allowed_ips) + entry_lines("Endpoint"@, p.endpoint)
        + entry_lines("PersistentKeepalive"@, p.keepalive)
}

pub open spec fn all_peer_lines(ps: Seq<PeerFieldsView>) -> Seq<Seq<char>>
    decreases ps.len(),
{
    if ps.len() == 0 {
        Seq::empty()
    } else {
        all_peer_lines(ps.drop_last()) + peer_lines(ps.last())
    }
}

pub open spec fn text_lines(f: FieldsView) -> Seq<Seq<char>> {
    iface_lines(f) + all_peer_lines(f.peers)
}

/// A key name that can start a `key = value` line.
pub open spec fn key_name(k: Seq<char>) -> bool {
    &&& k.len() > 0
    &&& !is_ws(k[0])
    &&& !is_ws(k.last())
    &&& k[0] != '#'
    &&& k[0] != '['
    &&& !contains_char(k, '=')
    &&& !contains_char(k, '\n')
}

proof fn lemma_join_entry(k: Seq<char>, v: Seq<char>)
    ensures
        join_lines(entry_lines(k, v)) == entry(k, v),
{
    reveal_strlit("\n");
    if trim(v).len() == 0 {
        assert(join_lines(entry_lines(k, v)) =~= Seq::<char>::empty());
    } else {
        let l = k + " = "@ + trim(v);
        let el = entry_lines(k, v);
        assert(el.drop_last() =~= Seq::<Seq<char>>::empty());
        assert(el.last() == l);
        assert(join_lines(el) == join_lines(el.drop_last()) + el.last() + seq!['\n']);
        assert(join_lines(el.drop_last()) == Seq::<char>::empty());
        assert(join_lines(el) =~= l + seq!['\n']);
        assert(entry(k, v) =~= l + seq!['\n']);
    }
}

proof fn lemma_join5(
    a: Seq<Seq<char>>,
    b: Seq<Seq<char>>,
    c: Seq<Seq<char>>,
    d: Seq<Seq<char>>,
    e: Seq<Seq<char>>,
    g: Seq<Seq<char>>,
)
    ensures
        join_lines(a + b + c + d + e + g) == join_lines(a) + join_lines(b) + join_lines(c)
            + join_lines(d) + join_lines(e) + join_lines(g),
{
    lemma_join_append(a, b);
    lemma_join_append(a + b, c);
    lemma_join_append(a + b + c, d);
    lemma_join_append(a + b + c + d, e);
    lemma_join_append(a + b + c + d + e, g);
}

proof fn lemma_join_peer(p: PeerFieldsView)
    ensures
        join_lines(peer_lines(p)) == peer_block(p),
{
    let hd: Seq<Seq<char>> = seq![Seq::empty(), "[Peer]"@];
    lemma_join5(
        hd,
        entry_lines("PublicKey"@, p.peer_public_key),
        entry_lines("PresharedKey"@, p.preshared_key),
        entry_lines("AllowedIPs"@, p.allowed_ips),
        entry_lines("Endpoint"@, p.endpoint),
        entry_lines("PersistentKeepalive"@, p.keepalive),
    );
    lemma_join_entry("PublicKey"@, p.peer_public_key);
    lemma_join_entry("PresharedKey"@, p.preshared_key);
    lemma_join_entry("AllowedIPs"@, p.allowed_ips);
    lemma_join_entry("Endpoint"@, p.endpoint);
    lemma_join_entry("PersistentKeepalive"@, p.keepalive);
    reveal_strlit("\n[Peer]\n");
    reveal_strlit("[Peer]");
    let h1 = hd.drop_last();
    assert(h1 =~= seq![Seq::<char>::empty()]);
    assert(h1.drop_last() =~= Seq::<Seq<char>>::empty());
    assert(join_lines(h1) == join_lines(h1.drop_last()) + h1.last() + seq!['\n']);
    assert(join_lines(h1) =~= seq!['\n']);
    assert(join_lines(hd) == join_lines(h1) + hd.last() + seq!['\n']);
    assert(join_lines(hd) =~= "\n[Peer]\n"@);
}

proof fn lemma_join_all_peers(ps: Seq<PeerFieldsView>)
    ensures
        join_lines(all_peer_lines(ps)) == peers_text(ps),
    decreases ps.len(),
{
    if ps.len() > 0 {
        lemma_join_all_peers(ps.drop_last());
        lemma_join_append(all_peer_lines(ps.drop_last()), peer_lines(ps.last()));
        lemma_join_peer(ps.last());
    }
}

/// The config text is exactly the lines of `text_lines`, each ended by `'\n'`.
proof fn lemma_join_text(f: FieldsView)
    ensures
        join_lines(text_lines(f)) == fields_text(f),
{
    let hd: Seq<Seq<char>> = seq!["[Interface]"@];
    lemma_join5(
        hd,
        entry_lines("PrivateKey"@, f.private_key),
        entry_lines("Address"@, f.address),
        entry_lines("DNS"@, f.dns),
        entry_lines("ListenPort"@, f.listen_port),
        entry_lines("MTU"@, f.mtu),
    );
    lemma_join_append(iface_lines(f), all_peer_lines(f.peers));
    lemma_join_entry("PrivateKey"@, f.private_key);
    lemma_join_entry("Address"@, f.address);
    lemma_join_entry("DNS"@, f.dns);
    lemma_join_entry("ListenPort"@, f.listen_port);
    lemma_join_entry("MTU"@, f.mtu);
    lemma_join_all_peers(f.peers);
    reveal_strlit("[Interface]\n");
    reveal_strlit("[Interface]");
    assert(hd.drop_last() =~= Seq::<Seq<char>>::empty());
    assert(join_lines(hd) == join_lines(hd.drop_last()) + hd.last() + seq!['\n']);
    assert(join_lines(hd) =~= "[Interface]\n"@);
}

// ---------------------------------------------------------------------------
// `key = value` lines
// ---------------------------------------------------------------------------

proof fn lemma_kv_line(k: Seq<char>, x: Seq<char>)
    requires
        key_name(k),
        is_trimmed(x),
        x.len() > 0,
        !contains_char(x, '\n'),
    ensures
        trim(k + " = "@ + x) == k + " = "@ + x,
        (k + " = "@ + x)[0] == k[0],
        line_key(k + " = "@ + x) == Some(lower_seq(k)),
        kv_value(k + " = "@ + x) == x,
        plain_line(k + " = "@ + x),
{
    reveal_strlit(" = ");
    let l = k + " = "@ + x;
    let n = k.len() as int;
    assert(l[0] == k[0]);
    assert(l.last() == x.last());
    lemma_trim_noop(l);
    lemma_first_pos(l, '=');
    assert(l[n + 1] == '=');
    assert forall|j: int| 0 <= j < n + 1 implies l[j] != '=' by {
        if j < n {
            assert(l[j] == k[j]);
        }
    }
    assert(first_pos(l, '=') == n + 1);
    assert(l.subrange(0, n + 1) =~= k + seq![' ']);
    assert(l.subrange(n + 2, l.len() as int) =~= seq![' '] + x);
    assert(is_trimmed(k));
    lemma_trim_before_ws(k, ' ');
    lemma_trim_after_ws(' ', x);
    assert(!contains_char(l, '\n')) by {
        if contains_char(l, '\n') {
            let i = choose|i: int| 0 <= i < l.len() && l[i] == '\n';
            if i < n {
                assert(k[i] == '\n');
            } else if i >= n + 3 {
                assert(x[i - n - 3] == '\n');
            } else {
                assert(l[n] == ' ' && l[n + 1] == '=' && l[n + 2] == ' ');
            }
        }
    }
    assert(!is_ws(x.last()));
}

/// The key names that `fields_to_config` writes, with the lower-cased names
/// that the form matches them by.
proof fn lemma_key_names()
    ensures
        key_name("PrivateKey"@),
        key_name("Address"@),
        key_name("DNS"@),
        key_name("ListenPort"@),
        key_name("MTU"@),
        key_name("PublicKey"@),
        key_name("PresharedKey"@),
        key_name("AllowedIPs"@),
        key_name("Endpoint"@),
        key_name("PersistentKeepalive"@),
        lower_seq("PrivateKey"@) == "privatekey"@,
        lower_seq("Address"@) == "address"@,
        lower_seq("DNS"@) == "dns"@,
        lower_seq("ListenPort"@) == "listenport"@,
        lower_seq("MTU"@) == "mtu"@,
        lower_seq("PublicKey"@) == "publickey"@,
        lower_seq("PresharedKey"@) == "presharedkey"@,
        lower_seq("AllowedIPs"@) == "allowedips"@,
        lower_seq("Endpoint"@) == "endpoint"@,
        lower_seq("PersistentKeepalive"@) == "persistentkeepalive"@,
        "privatekey"@ != "address"@,
        "privatekey"@ != "dns"@,
        "privatekey"@ != "listenport"@,
        "privatekey"@ != "mtu"@,
        "address"@ != "dns"@,
        "address"@ != "listenport"@,
        "address"@ != "mtu"@,
        "dns"@ != "listenport"@,
        "dns"@ != "mtu"@,
        "listenport"@ != "mtu"@,
        "publickey"@ != "presharedkey"@,
        "publickey"@ != "allowedips"@,
        "publickey"@ != "endpoint"@,
        "publickey"@ != "persistentkeepalive"@,
        "presharedkey"@ != "allowedips"@,
        "presharedkey"@ != "endpoint"@,
        "presharedkey"@ != "persistentkeepalive"@,
        "allowedips"@ != "endpoint"@,
        "allowedips"@ != "persistentkeepalive"@,
        "endpoint"@ != "persistentkeepalive"@,
{
    reveal_strlit("PrivateKey");
    reveal_strlit("Address");
    reveal_strlit("DNS");
    reveal_strlit("ListenPort");
    reveal_strlit("MTU");
    reveal_strlit("PublicKey");
    reveal_strlit("PresharedKey");
    reveal_strlit("AllowedIPs");
    reveal_strlit("Endpoint");
    reveal_strlit("PersistentKeepalive");
    reveal_strlit("privatekey");
    reveal_strlit("address");
    reveal_strlit("dns");
    reveal_strlit("listenport");
    reveal_strlit("mtu");
    reveal_strlit("publickey");
    reveal_strlit("presharedkey");
    reveal_strlit("allowedips");
    reveal_strlit("endpoint");
    reveal_strlit("persistentkeepalive");
    lemma_key_name_chars("PrivateKey"@);
    lemma_key_name_chars("Address"@);
    lemma_key_name_chars("DNS"@);
    lemma_key_name_chars("ListenPort"@);
    lemma_key_name_chars("MTU"@);
    lemma_key_name_chars("PublicKey"@);
    lemma_key_name_chars("PresharedKey"@);
    lemma_key_name_chars("AllowedIPs"@);
    lemma_key_name_chars("Endpoint"@);
    lemma_key_name_chars("PersistentKeepalive"@);
    assert(lower_seq("PrivateKey"@) =~= "privatekey"@);
    assert(lower_seq("Address"@) =~= "address"@);
    assert(lower_seq("DNS"@) =~= "dns"@);
    assert(lower_seq("ListenPort"@) =~= "listenport"@);
    assert(lower_seq("MTU"@) =~= "mtu"@);
    assert(lower_seq("PublicKey"@) =~= "publickey"@);
    assert(lower_seq("PresharedKey"@) =~= "presharedkey"@);
    assert(lower_seq("AllowedIPs"@) =~= "allowedips"@);
    assert(lower_seq("Endpoint"@) =~= "endpoint"@);
    assert(lower_seq("PersistentKeepalive"@) =~= "persistentkeepalive"@);
    assert("dns"@[0] != "mtu"@[0]);
    assert("privatekey"@[0] != "listenport"@[0]);
}

/// A sequence of ASCII letters is a key name.
proof fn lemma_key_name_chars(k: Seq<char>)
    requires
        k.len() > 0,
        forall|i: int| 0 <= i < k.len() ==> ('a' <= #[trigger] k[i] <= 'z' || 'A' <= k[i] <= 'Z'),
    ensures
        key_name(k),
{
    assert(!contains_char(k, '=')) by {
        if contains_char(k, '=') {
            let i = choose|i: int| 0 <= i < k.len() && k[i] == '=';
            assert('a' <= k[i] <= 'z' || 'A' <= k[i] <= 'Z');
        }
    }
    assert(!contains_char(k, '\n')) by {
        if contains_char(k, '\n') {
            let i = choose|i: int| 0 <= i < k.len() && k[i] == '\n';
            assert('a' <= k[i] <= 'z' || 'A' <= k[i] <= 'Z');
        }
    }
    assert('a' <= k[0] <= 'z' || 'A' <= k[0] <= 'Z');
    assert('a' <= k[k.len() - 1] <= 'z' || 'A' <= k[k.len() - 1] <= 'Z');
}

// ---------------------------------------------------------------------------
// Every written line is read back as written
// ---------------------------------------------------------------------------

pub open spec fn all_plain(ls: Seq<Seq<char>>) -> bool {
    forall|i: int| 0 <= i < ls.len() ==> plain_line(#[trigger] ls[i])
}

proof fn lemma_all_plain_append(a: Seq<Seq<char>>, b: Seq<Seq<char>>)
    requires
        all_plain(a),
        all_plain(b),
    ensures
        all_plain(a + b),
{
    assert forall|i: int| 0 <= i < (a + b).len() implies plain_line(#[trigger] (a + b)[i]) by {
        if i < a.len() {
            assert((a + b)[i] == a[i]);
        } else {
            assert((a + b)[i] == b[i - a.len()]);
        }
    }
}

proof fn lemma_entry_plain(k: Seq<char>, v: Seq<char>)
    requires
        key_name(k),
        !contains_char(v, '\n'),
    ensures
        all_plain(entry_lines(k, v)),
{
    if trim(v).len() > 0 {
        lemma_trim_shape(v);
        lemma_trim_not_in(v, '\n');
        lemma_kv_line(k, trim(v));
    }
}

proof fn lemma_header_lines()
    ensures
        plain_line("[Interface]"@),
        plain_line("[Peer]"@),
        plain_line(Seq::<char>::empty()),
        is_trimmed("[Interface]"@),
        "[Interface]"@.len() == 11,
        "[Peer]"@.len() == 6,
        is_trimmed("[Peer]"@),
        "[Interface]"@[0] == '[',
        "[Peer]"@[0] == '[',
        lower_seq("[Interface]"@) == "[interface]"@,
        lower_seq("[Peer]"@) == "[peer]"@,
        !starts_with("[peer]"@, "[interface]"@),
        !starts_with("[interface]"@, "[peer]"@),
        starts_with("[peer]"@, "[peer]"@),
        starts_with("[interface]"@, "[interface]"@),
{
    reveal_strlit("[Interface]");
    reveal_strlit("[Peer]");
    reveal_strlit("[interface]");
    reveal_strlit("[peer]");
    assert(lower_seq("[Interface]"@) =~= "[interface]"@);
    assert(lower_seq("[Peer]"@) =~= "[peer]"@);
    assert("[interface]"@.subrange(0, 11) =~= "[interface]"@);
    assert("[peer]"@.subrange(0, 6) =~= "[peer]"@);
    assert("[interface]"@.subrange(0, 6) != "[peer]"@) by {
        assert("[interface]"@.subrange(0, 6)[1] != "[peer]"@[1]);
    }
    assert(!contains_char("[Interface]"@, '\n')) by {
        if contains_char("[Interface]"@, '\n') {
            let i = choose|i: int| 0 <= i < "[Interface]"@.len() && "[Interface]"@[i] == '\n';
        }
    }
    assert(!contains_char("[Peer]"@, '\n')) by {
        if contains_char("[Peer]"@, '\n') {
            let i = choose|i: int| 0 <= i < "[Peer]"@.len() && "[Peer]"@[i] == '\n';
        }
    }
}

proof fn lemma_text_plain(f: FieldsView)
    requires
        single_line_fields(f),
    ensures
        all_plain(text_lines(f)),
{
    lemma_key_names();
    lemma_header_lines();
    let hd: Seq<Seq<char>> = seq!["[Interface]"@];
    assert(all_plain(hd)) by {
        assert forall|i: int| 0 <= i < hd.len() implies plain_line(#[trigger] hd[i]) by {
            assert(hd[i] == "[Interface]"@);
        }
    }
    lemma_entry_plain("PrivateKey"@, f.private_key);
    lemma_entry_plain("Address"@, f.address);
    lemma_entry_plain("DNS"@, f.dns);
    lemma_entry_plain("ListenPort"@, f.listen_port);
    lemma_entry_plain("MTU"@, f.mtu);
    lemma_all_plain_append(hd, entry_lines("PrivateKey"@, f.private_key));
    lemma_all_plain_append(hd + entry_lines("PrivateKey"@, f.private_key), entry_lines("Address"@, f.address));
    lemma_all_plain_append(
        hd + entry_lines("PrivateKey"@, f.private_key) + entry_lines("Address"@, f.address),
        entry_lines("DNS"@, f.dns),
    );
    lemma_all_plain_append(
        hd + entry_lines("PrivateKey"@, f.private_key) + entry_lines("Address"@, f.address)
            + entry_lines("DNS"@, f.dns),
        entry_lines("ListenPort"@, f.listen_port),
    );
    lemma_all_plain_append(
        hd + entry_lines("PrivateKey"@, f.private_key) + entry_lines("Address"@, f.address)
            + entry_lines("DNS"@, f.dns) + entry_lines("ListenPort"@, f.listen_port),
        entry_lines("MTU"@, f.mtu),
    );
    lemma_all_peers_plain(f.peers);
    lemma_all_plain_append(iface_lines(f), all_peer_lines(f.peers));
}

proof fn lemma_peer_plain(p: PeerFieldsView)
    requires
        peer_single_line(p),
    ensures
        all_plain(peer_lines(p)),
{
    lemma_key_names();
    lemma_header_lines();
    let hd: Seq<Seq<char>> = seq![Seq::empty(), "[Peer]"@];
    assert(all_plain(hd)) by {
        assert forall|i: int| 0 <= i < hd.len() implies plain_line(#[trigger] hd[i]) by {
            if i == 0 {
                assert(hd[i] == Seq::<char>::empty());
            } else {
                assert(hd[i] == "[Peer]"@);
            }
        }
    }
    let e1 = entry_lines("PublicKey"@, p.peer_public_key);
    let e2 = entry_lines("PresharedKey"@, p.preshared_key);
    let e3 = entry_lines("AllowedIPs"@, p.allowed_ips);
    let e4 = entry_lines("Endpoint"@, p.endpoint);
    let e5 = entry_lines("PersistentKeepalive"@, p.keepalive);
    lemma_entry_plain("PublicKey"@, p.peer_public_key);
    lemma_entry_plain("PresharedKey"@, p.preshared_key);
    lemma_entry_plain("AllowedIPs"@, p.allowed_ips);
    lemma_entry_plain("Endpoint"@, p.endpoint);
    lemma_entry_plain("PersistentKeepalive"@, p.keepalive);
    lemma_all_plain_append(hd, e1);
    lemma_all_plain_append(hd + e1, e2);
    lemma_all_plain_append(hd + e1 + e2, e3);
    lemma_all_plain_append(hd + e1 + e2 + e3, e4);
    lemma_all_plain_append(hd + e1 + e2 + e3 + e4, e5);
}

proof fn lemma_all_peers_plain(ps: Seq<PeerFieldsView>)
    requires
        forall|i: int| 0 <= i < ps.len() ==> peer_single_line(#[trigger] ps[i]),
    ensures
        all_plain(all_peer_lines(ps)),
    decreases ps.len(),
{
    if ps.len() > 0 {
        assert forall|i: int| 0 <= i < ps.drop_last().len() implies peer_single_line(
            #[trigger] ps.drop_last()[i],
        ) by {
            assert(ps.drop_last()[i] == ps[i]);
        }
        lemma_all_peers_plain(ps.drop_last());
        assert(peer_single_line(ps[ps.len() - 1]));
        lemma_peer_plain(ps.last());
        lemma_all_plain_append(all_peer_lines(ps.drop_last()), peer_lines(ps.last()));
    }
}

/// Splitting the written config into lines gives `text_lines`.
proof fn lemma_lines_of_text(f: FieldsView)
    requires
        single_line_fields(f),
    ensures
        lines(fields_text(f)) == text_lines(f),
{
    lemma_join_text(f);
    lemma_text_plain(f);
    lemma_lines_join(text_lines(f));
}

// ---------------------------------------------------------------------------
// Reading the written lines back
// ---------------------------------------------------------------------------

pub open spec fn c2f_from(st: (FieldsView, FormSection), ls: Seq<Seq<char>>) -> (FieldsView, FormSection)
    decreases ls.len(),
{
    if ls.len() == 0 {
        st
    } else {
        c2f_step(c2f_from(st, ls.drop_last()), ls.last())
    }
}

proof fn lemma_c2f_from_append(st: (FieldsView, FormSection), a: Seq<Seq<char>>, b: Seq<Seq<char>>)
    ensures
        c2f_from(st, a + b) == c2f_from(c2f_from(st, a), b),
    decreases b.len(),
{
    if b.len() == 0 {
        assert(a + b =~= a);
    } else {
        assert((a + b).drop_last() =~= a + b.drop_last());
        lemma_c2f_from_append(st, a, b.drop_last());
    }
}

proof fn lemma_c2f_run_from(ls: Seq<Seq<char>>)
    ensures
        c2f_run(ls) == c2f_from((empty_fields(), FormSection::Start), ls),
    decreases ls.len(),
{
    if ls.len() > 0 {
        lemma_c2f_run_from(ls.drop_last());
    }
}

proof fn lemma_c2f_single(st: (FieldsView, FormSection), l: Seq<char>)
    ensures
        c2f_from(st, seq![l]) == c2f_step(st, l),
{
    assert(seq![l].drop_last() =~= Seq::<Seq<char>>::empty());
    assert(seq![l].last() == l);
    assert(c2f_from(st, seq![l].drop_last()) == st);
}

proof fn lemma_entry_iface(g: FieldsView, k: Seq<char>, v: Seq<char>)
    requires
        key_name(k),
        !contains_char(v, '\n'),
    ensures
        c2f_from((g, FormSection::Interface), entry_lines(k, v)) == (if trim(v).len() == 0 {
            g
        } else {
            assign_iface(g, lower_seq(k), trim(v))
        }, FormSection::Interface),
{
    if trim(v).len() > 0 {
        lemma_trim_shape(v);
        lemma_trim_not_in(v, '\n');
        lemma_kv_line(k, trim(v));
        lemma_c2f_single((g, FormSection::Interface), k + " = "@ + trim(v));
    }
}

proof fn lemma_entry_peer(g: FieldsView, base: Seq<PeerFieldsView>, q: PeerFieldsView, k: Seq<char>, v: Seq<char>)
    requires
        key_name(k),
        !contains_char(v, '\n'),
    ensures
        c2f_from((FieldsView { peers: base.push(q), ..g }, FormSection::Peer), entry_lines(k, v)) == (
        FieldsView {
            peers: base.push(
                if trim(v).len() == 0 {
                    q
                } else {
                    assign_peer(q, lower_seq(k), trim(v))
                },
            ),
            ..g
        },
        FormSection::Peer,
    ),
{
    if trim(v).len() > 0 {
        lemma_trim_shape(v);
        lemma_trim_not_in(v, '\n');
        lemma_kv_line(k, trim(v));
        let st = (FieldsView { peers: base.push(q), ..g }, FormSection::Peer);
        lemma_c2f_single(st, k + " = "@ + trim(v));
        assert(base.push(q).update(base.len() as int, assign_peer(q, lower_seq(k), trim(v))) =~= base.push(
            assign_peer(q, lower_seq(k), trim(v)),
        ));
    } else {
        assert(FieldsView { peers: base.push(q), ..g } == FieldsView { peers: base.push(q), ..g });
    }
}

/// After the interface lines: the five interface fields hold the trimmed
/// values and there are no peers yet.
proof fn lemma_iface_read(f: FieldsView)
    requires
        single_line_fields(f),
    ensures
        c2f_from((empty_fields(), FormSection::Start), iface_lines(f)) == (
        FieldsView {
            private_key: trim(f.private_key),
            address: trim(f.address),
            dns: trim(f.dns),
            listen_port: trim(f.listen_port),
            mtu: trim(f.mtu),
            peers: Seq::empty(),
        },
        FormSection::Interface,
    ),
{
    lemma_key_names();
    lemma_header_lines();
    let st0 = (empty_fields(), FormSection::Start);
    let hd: Seq<Seq<char>> = seq!["[Interface]"@];
    lemma_trim_noop("[Interface]"@);
    lemma_c2f_single(st0, "[Interface]"@);
    let g0 = empty_fields();
    assert(c2f_from(st0, hd) == (g0, FormSection::Interface));
    let e1 = entry_lines("PrivateKey"@, f.private_key);
    let e2 = entry_lines("Address"@, f.address);
    let e3 = entry_lines("DNS"@, f.dns);
    let e4 = entry_lines("ListenPort"@, f.listen_port);
    let e5 = entry_lines("MTU"@, f.mtu);
    lemma_c2f_from_append(st0, hd, e1);
    lemma_c2f_from_append(st0, hd + e1, e2);
    lemma_c2f_from_append(st0, hd + e1 + e2, e3);
    lemma_c2f_from_append(st0, hd + e1 + e2 + e3, e4);
    lemma_c2f_from_append(st0, hd + e1 + e2 + e3 + e4, e5);
    lemma_entry_iface(g0, "PrivateKey"@, f.private_key);
    if trim(f.private_key).len() == 0 {
        assert(trim(f.private_key) =~= Seq::<char>::empty());
    }
    let g1 = FieldsView { private_key: trim(f.private_key), ..g0 };
    assert(c2f_from(st0, hd + e1) == (g1, FormSection::Interface));
    lemma_entry_iface(g1, "Address"@, f.address);
    if trim(f.address).len() == 0 {
        assert(trim(f.address) =~= Seq::<char>::empty());
    }
    let g2 = FieldsView { address: trim(f.address), ..g1 };
    assert(c2f_from(st0, hd + e1 + e2) == (g2, FormSection::Interface));
    lemma_entry_iface(g2, "DNS"@, f.dns);
    if trim(f.dns).len() == 0 {
        assert(trim(f.dns) =~= Seq::<char>::empty());
    }
    let g3 = FieldsView { dns: trim(f.dns), ..g2 };
    assert(c2f_from(st0, hd + e1 + e2 + e3) == (g3, FormSection::Interface));
    lemma_entry_iface(g3, "ListenPort"@, f.listen_port);
    if trim(f.listen_port).len() == 0 {
        assert(trim(f.listen_port) =~= Seq::<char>::empty());
    }
    let g4 = FieldsView { listen_port: trim(f.listen_port), ..g3 };
    assert(c2f_from(st0, hd + e1 + e2 + e3 + e4) == (g4, FormSection::Interface));
    lemma_entry_iface(g4, "MTU"@, f.mtu);
    if trim(f.mtu).len() == 0 {
        assert(trim(f.mtu) =~= Seq::<char>::empty());
    }
    let g5 = FieldsView { mtu: trim(f.mtu), ..g4 };
    assert(c2f_from(st0, hd + e1 + e2 + e3 + e4 + e5) == (g5, FormSection::Interface));
}

/// Reading one peer block adds that peer, trimmed.
proof fn lemma_peer_read(g: FieldsView, sec: FormSection, p: PeerFieldsView)
    requires
        peer_single_line(p),
    ensures
        c2f_from((g, sec), peer_lines(p)) == (FieldsView { peers: g.peers.push(trim_peer(p)), ..g }, FormSection::Peer),
{
    lemma_key_names();
    lemma_header_lines();
    let st0 = (g, sec);
    let hd: Seq<Seq<char>> = seq![Seq::empty(), "[Peer]"@];
    lemma_trim_noop("[Peer]"@);
    lemma_trim_noop(Seq::<char>::empty());
    assert(hd.drop_last() =~= seq![Seq::<char>::empty()]);
    lemma_c2f_single(st0, Seq::<char>::empty());
    assert(c2f_from(st0, hd) == c2f_step(c2f_from(st0, hd.drop_last()), "[Peer]"@));
    let base = g.peers;
    let q0 = empty_peer();
    let h0 = FieldsView { peers: base.push(q0), ..g };
    assert(c2f_from(st0, hd) == (h0, FormSection::Peer));
    let e1 = entry_lines("PublicKey"@, p.peer_public_key);
    let e2 = entry_lines("PresharedKey"@, p.preshared_key);
    let e3 = entry_lines("AllowedIPs"@, p.allowed_ips);
    let e4 = entry_lines("Endpoint"@, p.endpoint);
    let e5 = entry_lines("PersistentKeepalive"@, p.keepalive);
    lemma_c2f_from_append(st0, hd, e1);
    lemma_c2f_from_append(st0, hd + e1, e2);
    lemma_c2f_from_append(st0, hd + e1 + e2, e3);
    lemma_c2f_from_append(st0, hd + e1 + e2 + e3, e4);
    lemma_c2f_from_append(st0, hd + e1 + e2 + e3 + e4, e5);
    lemma_entry_peer(g, base, q0, "PublicKey"@, p.peer_public_key);
    if trim(p.peer_public_key).len() == 0 {
        assert(trim(p.peer_public_key) =~= Seq::<char>::empty());
    }
    let q1 = PeerFieldsView { peer_public_key: trim(p.peer_public_key), ..q0 };
    assert(c2f_from(st0, hd + e1) == (FieldsView { peers: base.push(q1), ..g }, FormSection::Peer));
    lemma_entry_peer(g, base, q1, "PresharedKey"@, p.preshared_key);
    if trim(p.preshared_key).len() == 0 {
        assert(trim(p.preshared_key) =~= Seq::<char>::empty());
    }
    let q2 = PeerFieldsView { preshared_key: trim(p.preshared_key), ..q1 };
    assert(c2f_from(st0, hd + e1 + e2) == (FieldsView { peers: base.push(q2), ..g }, FormSection::Peer));
    lemma_entry_peer(g, base, q2, "AllowedIPs"@, p.allowed_ips);
    if trim(p.allowed_ips).len() == 0 {
        assert(trim(p.allowed_ips) =~= Seq::<char>::empty());
    }
    let q3 = PeerFieldsView { allowed_ips: trim(p.allowed_ips), ..q2 };
    assert(c2f_from(st0, hd + e1 + e2 + e3) == (FieldsView { peers: base.push(q3), ..g }, FormSection::Peer));
    lemma_entry_peer(g, base, q3, "Endpoint"@, p.endpoint);
    if trim(p.endpoint).len() == 0 {
        assert(trim(p.endpoint) =~= Seq::<char>::empty());
    }
    let q4 = PeerFieldsView { endpoint: trim(p.endpoint), ..q3 };
    assert(c2f_from(st0, hd + e1 + e2 + e3 + e4) == (FieldsView { peers: base.push(q4), ..g }, FormSection::Peer));
    lemma_entry_peer(g, base, q4, "PersistentKeepalive"@, p.keepalive);
    if trim(p.keepalive).len() == 0 {
        assert(trim(p.keepalive) =~= Seq::<char>::empty());
    }
    let q5 = PeerFieldsView { keepalive: trim(p.keepalive), ..q4 };
    assert(q5 == trim_peer(p));
}

proof fn lemma_all_peers_read(g: FieldsView, sec: FormSection, ps: Seq<PeerFieldsView>)
    requires
        forall|i: int| 0 <= i < ps.len() ==> peer_single_line(#[trigger] ps[i]),
    ensures
        c2f_from((g, sec), all_peer_lines(ps)) == (FieldsView { peers: g.peers + trim_peers(ps), ..g }, if ps.len() == 0 {
            sec
        } else {
            FormSection::Peer
        }),
    decreases ps.len(),
{
    if ps.len() == 0 {
        assert(g.peers + trim_peers(ps) =~= g.peers);
    } else {
        let pre = ps.drop_last();
        assert forall|i: int| 0 <= i < pre.len() implies peer_single_line(#[trigger] pre[i]) by {
            assert(pre[i] == ps[i]);
        }
        lemma_all_peers_read(g, sec, pre);
        lemma_c2f_from_append((g, sec), all_peer_lines(pre), peer_lines(ps.last()));
        let mid = c2f_from((g, sec), all_peer_lines(pre));
        assert(peer_single_line(ps[ps.len() - 1]));
        lemma_peer_read(mid.0, mid.1, ps.last());
        assert((g.peers + trim_peers(pre)).push(trim_peer(ps.last())) =~= g.peers + trim_peers(ps));
    }
}

/// Fields written by `fields_to_config` and read back by `config_to_fields`
/// come back trimmed, with at least one peer, and otherwise unchanged, as
/// long as no field spans more than one line.
pub proof fn law_fields_roundtrip(f: FieldsView)
    requires
        single_line_fields(f),
    ensures
        config_fields(fields_text(f)) == normalized(f),
{
    lemma_lines_of_text(f);
    lemma_c2f_run_from(text_lines(f));
    let st0 = (empty_fields(), FormSection::Start);
    lemma_c2f_from_append(st0, iface_lines(f), all_peer_lines(f.peers));
    lemma_iface_read(f);
    let mid = c2f_from(st0, iface_lines(f));
    lemma_all_peers_read(mid.0, mid.1, f.peers);
    let fin = c2f_run(text_lines(f)).0;
    assert(fin.peers =~= trim_peers(f.peers));
    if f.peers.len() == 0 {
        assert(ensure_peer_spec(fin).peers =~= normalized(f).peers);
    }
}

// ---------------------------------------------------------------------------
// The written config is one the form can represent
// ---------------------------------------------------------------------------

pub open spec fn rep_from(st: RepState, ls: Seq<Seq<char>>) -> RepState
    decreases ls.len(),
{
    if ls.len() == 0 {
        st
    } else {
        rep_step(rep_from(st, ls.drop_last()), ls.last())
    }
}

proof fn lemma_rep_from_append(st: RepState, a: Seq<Seq<char>>, b: Seq<Seq<char>>)
    ensures
        rep_from(st, a + b) == rep_from(rep_from(st, a), b),
    decreases b.len(),
{
    if b.len() == 0 {
        assert(a + b =~= a);
    } else {
        assert((a + b).drop_last() =~= a + b.drop_last());
        lemma_rep_from_append(st, a, b.drop_last());
    }
}

proof fn lemma_rep_run_from(ls: Seq<Seq<char>>)
    ensures
        rep_run(ls) == rep_from(rep_init(), ls),
    decreases ls.len(),
{
    if ls.len() > 0 {
        lemma_rep_run_from(ls.drop_last());
    }
}

proof fn lemma_rep_single(st: RepState, l: Seq<char>)
    ensures
        rep_from(st, seq![l]) == rep_step(st, l),
{
    assert(seq![l].drop_last() =~= Seq::<Seq<char>>::empty());
    assert(seq![l].last() == l);
    assert(rep_from(st, seq![l].drop_last()) == st);
}

/// Every key in `seen` is one of `ks`.
pub open spec fn keys_within(seen: Seq<Seq<char>>, ks: Set<Seq<char>>) -> bool {
    forall|i: int| 0 <= i < seen.len() ==> ks.contains(#[trigger] seen[i])
}

proof fn lemma_keys_within_push(seen: Seq<Seq<char>>, ks: Set<Seq<char>>, k: Seq<char>)
    requires
        keys_within(seen, ks),
    ensures
        keys_within(seen.push(k), ks.insert(k)),
        !ks.contains(k) ==> !seen.contains(k),
{
    assert forall|i: int| 0 <= i < seen.push(k).len() implies ks.insert(k).contains(#[trigger] seen.push(k)[i]) by {
        if i < seen.len() {
            assert(seen.push(k)[i] == seen[i]);
        }
    }
    if !ks.contains(k) && seen.contains(k) {
        let i = choose|i: int| 0 <= i < seen.len() && seen[i] == k;
        assert(ks.contains(seen[i]));
    }
}

proof fn lemma_rep_entry_iface(st: RepState, k: Seq<char>, v: Seq<char>, ks: Set<Seq<char>>)
    requires
        !st.failed,
        st.section is Interface,
        key_name(k),
        iface_key(lower_seq(k)),
        keys_within(st.iface_seen, ks),
        !ks.contains(lower_seq(k)),
        !contains_char(v, '\n'),
    ensures
        !rep_from(st, entry_lines(k, v)).failed,
        rep_from(st, entry_lines(k, v)).section is Interface,
        rep_from(st, entry_lines(k, v)).peers == st.peers,
        keys_within(rep_from(st, entry_lines(k, v)).iface_seen, ks.insert(lower_seq(k))),
{
    lemma_keys_within_push(st.iface_seen, ks, lower_seq(k));
    if trim(v).len() > 0 {
        lemma_trim_shape(v);
        lemma_trim_not_in(v, '\n');
        lemma_kv_line(k, trim(v));
        lemma_rep_single(st, k + " = "@ + trim(v));
    } else {
        assert forall|i: int| 0 <= i < st.iface_seen.len() implies ks.insert(lower_seq(k)).contains(
            #[trigger] st.iface_seen[i],
        ) by {
            assert(ks.contains(st.iface_seen[i]));
        }
    }
}

proof fn lemma_rep_entry_peer(st: RepState, k: Seq<char>, v: Seq<char>, ks: Set<Seq<char>>)
    requires
        !st.failed,
        st.section is Peer,
        key_name(k),
        peer_key(lower_seq(k)),
        keys_within(st.peer_seen, ks),
        !ks.contains(lower_seq(k)),
        !contains_char(v, '\n'),
    ensures
        !rep_from(st, entry_lines(k, v)).failed,
        rep_from(st, entry_lines(k, v)).section is Peer,
        rep_from(st, entry_lines(k, v)).peers == st.peers,
        keys_within(rep_from(st, entry_lines(k, v)).peer_seen, ks.insert(lower_seq(k))),
{
    lemma_keys_within_push(st.peer_seen, ks, lower_seq(k));
    if trim(v).len() > 0 {
        lemma_trim_shape(v);
        lemma_trim_not_in(v, '\n');
        lemma_kv_line(k, trim(v));
        lemma_rep_single(st, k + " = "@ + trim(v));
    } else {
        assert forall|i: int| 0 <= i < st.peer_seen.len() implies ks.insert(lower_seq(k)).contains(
            #[trigger] st.peer_seen[i],
        ) by {
            assert(ks.contains(st.peer_seen[i]));
        }
    }
}

proof fn lemma_rep_iface(f: FieldsView)
    requires
        single_line_fields(f),
    ensures
        !rep_from(rep_init(), iface_lines(f)).failed,
        rep_from(rep_init(), iface_lines(f)).peers == 0,
{
    lemma_key_names();
    lemma_header_lines();
    let st0 = rep_init();
    let hd: Seq<Seq<char>> = seq!["[Interface]"@];
    lemma_trim_noop("[Interface]"@);
    lemma_rep_single(st0, "[Interface]"@);
    let s1 = rep_from(st0, hd);
    assert(s1 == RepState { section: FormSection::Interface, ..st0 });
    let e1 = entry_lines("PrivateKey"@, f.private_key);
    let e2 = entry_lines("Address"@, f.address);
    let e3 = entry_lines("DNS"@, f.dns);
    let e4 = entry_lines("ListenPort"@, f.listen_port);
    let e5 = entry_lines("MTU"@, f.mtu);
    lemma_rep_from_append(st0, hd, e1);
    lemma_rep_from_append(st0, hd + e1, e2);
    lemma_rep_from_append(st0, hd + e1 + e2, e3);
    lemma_rep_from_append(st0, hd + e1 + e2 + e3, e4);
    lemma_rep_from_append(st0, hd + e1 + e2 + e3 + e4, e5);
    let k0 = Set::<Seq<char>>::empty();
    let k1 = k0.insert("privatekey"@);
    let k2 = k1.insert("address"@);
    let k3 = k2.insert("dns"@);
    let k4 = k3.insert("listenport"@);
    lemma_rep_entry_iface(s1, "PrivateKey"@, f.private_key, k0);
    lemma_rep_entry_iface(rep_from(st0, hd + e1), "Address"@, f.address, k1);
    lemma_rep_entry_iface(rep_from(st0, hd + e1 + e2), "DNS"@, f.dns, k2);
    lemma_rep_entry_iface(rep_from(st0, hd + e1 + e2 + e3), "ListenPort"@, f.listen_port, k3);
    lemma_rep_entry_iface(rep_from(st0, hd + e1 + e2 + e3 + e4), "MTU"@, f.mtu, k4);
}

proof fn lemma_rep_peer(st: RepState, p: PeerFieldsView)
    requires
        !st.failed,
        peer_single_line(p),
    ensures
        !rep_from(st, peer_lines(p)).failed,
        rep_from(st, peer_lines(p)).peers == st.peers + 1,
{
    lemma_key_names();
    lemma_header_lines();
    let hd: Seq<Seq<char>> = seq![Seq::empty(), "[Peer]"@];
    lemma_trim_noop("[Peer]"@);
    lemma_trim_noop(Seq::<char>::empty());
    assert(hd.drop_last() =~= seq![Seq::<char>::empty()]);
    lemma_rep_single(st, Seq::<char>::empty());
    assert(rep_from(st, hd) == rep_step(rep_from(st, hd.drop_last()), "[Peer]"@));
    let s1 = rep_from(st, hd);
    assert(!s1.failed && s1.section is Peer && s1.peers == st.peers + 1 && s1.peer_seen == Seq::<Seq<char>>::empty());
    let e1 = entry_lines("PublicKey"@, p.peer_public_key);
    let e2 = entry_lines("PresharedKey"@, p.preshared_key);
    let e3 = entry_lines("AllowedIPs"@, p.allowed_ips);
    let e4 = entry_lines("Endpoint"@, p.endpoint);
    let e5 = entry_lines("PersistentKeepalive"@, p.keepalive);
    lemma_rep_from_append(st, hd, e1);
    lemma_rep_from_append(st, hd + e1, e2);
    lemma_rep_from_append(st, hd + e1 + e2, e3);
    lemma_rep_from_append(st, hd + e1 + e2 + e3, e4);
    lemma_rep_from_append(st, hd + e1 + e2 + e3 + e4, e5);
    let k0 = Set::<Seq<char>>::empty();
    let k1 = k0.insert("publickey"@);
    let k2 = k1.insert("presharedkey"@);
    let k3 = k2.insert("allowedips"@);
    let k4 = k3.insert("endpoint"@);
    lemma_rep_entry_peer(s1, "PublicKey"@, p.peer_public_key, k0);
    lemma_rep_entry_peer(rep_from(st, hd + e1), "PresharedKey"@, p.preshared_key, k1);
    lemma_rep_entry_peer(rep_from(st, hd + e1 + e2), "AllowedIPs"@, p.allowed_ips, k2);
    lemma_rep_entry_peer(rep_from(st, hd + e1 + e2 + e3), "Endpoint"@, p.endpoint, k3);
    lemma_rep_entry_peer(rep_from(st, hd + e1 + e2 + e3 + e4), "PersistentKeepalive"@, p.keepalive, k4);
}

proof fn lemma_rep_all_peers(st: RepState, ps: Seq<PeerFieldsView>)
    requires
        !st.failed,
        forall|i: int| 0 <= i < ps.len() ==> peer_single_line(#[trigger] ps[i]),
    ensures
        !rep_from(st, all_peer_lines(ps)).failed,
        rep_from(st, all_peer_lines(ps)).peers == st.peers + ps.len(),
    decreases ps.len(),
{
    if ps.len() > 0 {
        let pre = ps.drop_last();
        assert forall|i: int| 0 <= i < pre.len() implies peer_single_line(#[trigger] pre[i]) by {
            assert(pre[i] == ps[i]);
        }
        lemma_rep_all_peers(st, pre);
        lemma_rep_from_append(st, all_peer_lines(pre), peer_lines(ps.last()));
        assert(peer_single_line(ps[ps.len() - 1]));
        lemma_rep_peer(rep_from(st, all_peer_lines(pre)), ps.last());
    }
}

/// A config that `fields_to_config` writes from fields with at least one
/// peer, none of them spanning lines, is one that `form_representable`
/// accepts.
pub proof fn law_written_config_representable(f: FieldsView)
    requires
        single_line_fields(f),
        f.peers.len() > 0,
    ensures
        representable(fields_text(f)),
{
    lemma_lines_of_text(f);
    lemma_rep_run_from(text_lines(f));
    lemma_rep_from_append(rep_init(), iface_lines(f), all_peer_lines(f.peers));
    lemma_rep_iface(f);
    lemma_rep_all_peers(rep_from(rep_init(), iface_lines(f)), f.peers);
}

// ---------------------------------------------------------------------------
// Read, write, read
// ---------------------------------------------------------------------------

pub open spec fn clean_value(s: Seq<char>) -> bool {
    is_trimmed(s) && !contains_char(s, '\n')
}

pub open spec fn clean_peer(p: PeerFieldsView) -> bool {
    &&& clean_value(p.peer_public_key)
    &&& clean_value(p.preshared_key)
    &&& clean_value(p.allowed_ips)
    &&& clean_value(p.endpoint)
    &&& clean_value(p.keepalive)
}

/// Every field of `f` is trimmed and on one line.
pub open spec fn clean_fields(f: FieldsView) -> bool {
    &&& clean_value(f.private_key)
    &&& clean_value(f.address)
    &&& clean_value(f.dns)
    &&& clean_value(f.listen_port)
    &&& clean_value(f.mtu)
    &&& forall|i: int| 0 <= i < f.peers.len() ==> clean_peer(#[trigger] f.peers[i])
}

proof fn lemma_kv_value_clean(t: Seq<char>)
    requires
        !contains_char(t, '\n'),
    ensures
        clean_value(kv_value(t)),
{
    lemma_first_pos(t, '=');
    let p = first_pos(t, '=');
    if p < t.len() {
        let v = t.subrange(p + 1, t.len() as int);
        crate::text::lemma_not_in_part(t, p + 1, t.len() as int, '\n');
        lemma_trim_shape(v);
        lemma_trim_not_in(v, '\n');
    } else {
        assert(!contains_char(Seq::<char>::empty(), '\n'));
    }
}

proof fn lemma_c2f_step_clean(st: (FieldsView, FormSection), raw: Seq<char>)
    requires
        clean_fields(st.0),
        !contains_char(raw, '\n'),
    ensures
        clean_fields(c2f_step(st, raw).0),
{
    let t = trim(raw);
    lemma_trim_not_in(raw, '\n');
    lemma_kv_value_clean(t);
    let g = st.0;
    let r = c2f_step(st, raw).0;
    assert(clean_peer(empty_peer())) by {
        assert(!contains_char(Seq::<char>::empty(), '\n'));
    }
    if g.peers.len() > 0 {
        assert(clean_peer(g.peers[g.peers.len() - 1]));
    }
    assert forall|i: int| 0 <= i < r.peers.len() implies clean_peer(#[trigger] r.peers[i]) by {
        if i < g.peers.len() {
            if i != g.peers.len() - 1 {
                assert(r.peers[i] == g.peers[i]);
            }
        }
    }
}

proof fn lemma_c2f_run_clean(ls: Seq<Seq<char>>)
    requires
        forall|i: int| 0 <= i < ls.len() ==> !contains_char(#[trigger] ls[i], '\n'),
    ensures
        clean_fields(c2f_run(ls).0),
    decreases ls.len(),
{
    if ls.len() == 0 {
        assert(!contains_char(Seq::<char>::empty(), '\n'));
    } else {
        let pre = ls.drop_last();
        assert forall|i: int| 0 <= i < pre.len() implies !contains_char(#[trigger] pre[i], '\n') by {
            assert(pre[i] == ls[i]);
        }
        lemma_c2f_run_clean(pre);
        assert(!contains_char(ls[ls.len() - 1], '\n'));
        lemma_c2f_step_clean(c2f_run(pre), ls.last());
    }
}

/// The fields read from any config are clean, and have at least one peer.
pub proof fn lemma_config_fields_clean(c: Seq<char>)
    ensures
        clean_fields(config_fields(c)),
        config_fields(c).peers.len() > 0,
{
    lemma_lines_no_newline(c);
    lemma_c2f_run_clean(lines(c));
    let g = c2f_run(lines(c)).0;
    if g.peers.len() == 0 {
        assert(clean_peer(empty_peer())) by {
            assert(!contains_char(Seq::<char>::empty(), '\n'));
        }
        let r = config_fields(c);
        assert forall|i: int| 0 <= i < r.peers.len() implies clean_peer(#[trigger] r.peers[i]) by {
            assert(r.peers[i] == empty_peer());
        }
    }
}

/// Clean fields are already in the form's normal form.
proof fn lemma_clean_normalized(f: FieldsView)
    requires
        clean_fields(f),
        f.peers.len() > 0,
    ensures
        normalized(f) == f,
{
    lemma_trim_noop(f.private_key);
    lemma_trim_noop(f.address);
    lemma_trim_noop(f.dns);
    lemma_trim_noop(f.listen_port);
    lemma_trim_noop(f.mtu);
    assert forall|i: int| 0 <= i < f.peers.len() implies trim_peers(f.peers)[i] == f.peers[i] by {
        let p = f.peers[i];
        assert(clean_peer(p));
        lemma_trim_noop(p.peer_public_key);
        lemma_trim_noop(p.preshared_key);
        lemma_trim_noop(p.allowed_ips);
        lemma_trim_noop(p.endpoint);
        lemma_trim_noop(p.keepalive);
    }
    assert(trim_peers(f.peers) =~= f.peers);
}

/// Reading a config into the form, writing it out, and reading it again
/// gives the same fields as the first read.
pub proof fn law_read_write_read(c: Seq<char>)
    ensures
        config_fields(fields_text(config_fields(c))) == config_fields(c),
{
    let f = config_fields(c);
    lemma_config_fields_clean(c);
    assert(single_line_fields(f)) by {
        assert forall|i: int| 0 <= i < f.peers.len() implies peer_single_line(#[trigger] f.peers[i]) by {
            assert(clean_peer(f.peers[i]));
        }
    }
    law_fields_roundtrip(f);
    lemma_clean_normalized(f);
}

// ---------------------------------------------------------------------------
// Peer headers
// ---------------------------------------------------------------------------

/// A `[Peer]` header line: its trimmed text starts with `[peer]` in any
/// letter case.
pub open spec fn peer_header(l: Seq<char>) -> bool {
    starts_with(lower_seq(trim(l)), "[peer]"@)
}

/// How many of the lines `ls` are `[Peer]` headers.
pub open spec fn peer_headers(ls: Seq<Seq<char>>) -> nat
    decreases ls.len(),
{
    if ls.len() == 0 {
        0
    } else {
        peer_headers(ls.drop_last()) + if peer_header(ls.last()) {
            1nat
        } else {
            0nat
        }
    }
}

proof fn lemma_not_header(l: Seq<char>, i: int)
    requires
        0 <= i < 6,
        i < lower_seq(trim(l)).len(),
        lower_seq(trim(l))[i] != "[peer]"@[i],
    ensures
        !peer_header(l),
{
    reveal_strlit("[peer]");
    let low = lower_seq(trim(l));
    if peer_header(l) {
        assert(low.subrange(0, 6)[i] == low[i]);
    }
}

/// A header check only passes for text whose first character is `[`.
proof fn lemma_header_start(t: Seq<char>, h: Seq<char>)
    requires
        h.len() > 0,
        h[0] == '[',
        starts_with(lower_seq(t), h),
    ensures
        t.len() > 0 && t[0] == '[',
{
    assert(lower_seq(t)[0] == '[');
}

proof fn lemma_c2f_peer_count(ls: Seq<Seq<char>>)
    ensures
        c2f_run(ls).0.peers.len() == peer_headers(ls),
    decreases ls.len(),
{
    reveal_strlit("[peer]");
    reveal_strlit("[interface]");
    if ls.len() > 0 {
        lemma_c2f_peer_count(ls.drop_last());
        let raw = ls.last();
        let t = trim(raw);
        let low = lower_seq(t);
        if peer_header(raw) {
            lemma_header_start(t, "[peer]"@);
            if starts_with(low, "[interface]"@) {
                assert(low.subrange(0, 11)[1] == 'i');
                assert(low.subrange(0, 6)[1] == 'p');
            }
        }
    }
}

proof fn lemma_rep_peer_count(ls: Seq<Seq<char>>)
    ensures
        rep_run(ls).peers <= peer_headers(ls),
    decreases ls.len(),
{
    if ls.len() > 0 {
        lemma_rep_peer_count(ls.drop_last());
    }
}

/// `config_to_fields` gives one peer for each `[Peer]` header, and a single
/// empty peer when there is none.
pub proof fn law_config_peer_count(cfg: Seq<char>)
    ensures
        config_fields(cfg).peers.len() == if peer_headers(lines(cfg)) == 0 {
            1
        } else {
            peer_headers(lines(cfg))
        },
{
    lemma_c2f_peer_count(lines(cfg));
}

proof fn lemma_peer_headers_append(a: Seq<Seq<char>>, b: Seq<Seq<char>>)
    ensures
        peer_headers(a + b) == peer_headers(a) + peer_headers(b),
    decreases b.len(),
{
    if b.len() == 0 {
        assert(a + b =~= a);
    } else {
        lemma_peer_headers_append(a, b.drop_last());
        assert((a + b).drop_last() =~= a + b.drop_last());
    }
}

/// A written `key = value` line is no header.
proof fn lemma_entry_not_header(k: Seq<char>, v: Seq<char>)
    requires
        k.len() > 0,
        'A' <= k[0] <= 'Z',
    ensures
        forall|i: int| 0 <= i < entry_lines(k, v).len() ==> !peer_header(#[trigger] entry_lines(k, v)[i]),
{
    reveal_strlit(" = ");
    reveal_strlit("[peer]");
    if trim(v).len() > 0 {
        let e = k + " = "@ + trim(v);
        lemma_trim_shape(v);
        assert(e[0] == k[0]);
        assert(e.last() == trim(v).last());
        crate::text::lemma_trim_noop(e);
        assert(lower_seq(trim(e))[0] != '[');
        lemma_not_header(e, 0);
        assert(entry_lines(k, v) =~= seq![e]);
    }
}

proof fn lemma_no_headers_in(ls: Seq<Seq<char>>)
    requires
        forall|i: int| 0 <= i < ls.len() ==> !peer_header(#[trigger] ls[i]),
    ensures
        peer_headers(ls) == 0,
    decreases ls.len(),
{
    if ls.len() > 0 {
        assert(!peer_header(ls[ls.len() - 1]));
        assert forall|i: int| 0 <= i < ls.drop_last().len() implies !peer_header(#[trigger] ls.drop_last()[i]) by {
            assert(ls.drop_last()[i] == ls[i]);
        }
        lemma_no_headers_in(ls.drop_last());
    }
}

proof fn lemma_entry_headers(k: Seq<char>, v: Seq<char>)
    requires
        k.len() > 0,
        'A' <= k[0] <= 'Z',
    ensures
        peer_headers(entry_lines(k, v)) == 0,
{
    lemma_entry_not_header(k, v);
    lemma_no_headers_in(entry_lines(k, v));
}

/// The written Interface section holds no `[Peer]` header.
proof fn lemma_iface_headers(f: FieldsView)
    ensures
        peer_headers(iface_lines(f)) == 0,
{
    reveal_strlit("[Interface]");
    reveal_strlit("[peer]");
    reveal_strlit("PrivateKey");
    reveal_strlit("Address");
    reveal_strlit("DNS");
    reveal_strlit("ListenPort");
    reveal_strlit("MTU");
    let h = "[Interface]"@;
    crate::text::lemma_trim_noop(h);
    assert(lower_seq(trim(h))[1] == 'i');
    lemma_not_header(h, 1);
    assert(peer_headers(seq![h]) == 0) by {
        assert(seq![h].drop_last() =~= Seq::<Seq<char>>::empty());
        assert(seq![h].last() == h);
        assert(peer_headers(Seq::<Seq<char>>::empty()) == 0);
        assert(!peer_header(seq![h].last()));
    }
    let a = entry_lines("PrivateKey"@, f.private_key);
    let b = entry_lines("Address"@, f.address);
    let c = entry_lines("DNS"@, f.dns);
    let d = entry_lines("ListenPort"@, f.listen_port);
    let e = entry_lines("MTU"@, f.mtu);
    lemma_entry_headers("PrivateKey"@, f.private_key);
    lemma_entry_headers("Address"@, f.address);
    lemma_entry_headers("DNS"@, f.dns);
    lemma_entry_headers("ListenPort"@, f.listen_port);
    lemma_entry_headers("MTU"@, f.mtu);
    lemma_peer_headers_append(seq![h], a);
    lemma_peer_headers_append(seq![h] + a, b);
    lemma_peer_headers_append(seq![h] + a + b, c);
    lemma_peer_headers_append(seq![h] + a + b + c, d);
    lemma_peer_headers_append(seq![h] + a + b + c + d, e);
}

/// A config written from fields with no line breaks is one the form can
/// represent exactly when the fields have a peer.
pub proof fn law_written_representable_iff_peers(f: FieldsView)
    requires
        single_line_fields(f),
    ensures
        representable(fields_text(f)) == (f.peers.len() >= 1),
{
    if f.peers.len() >= 1 {
        law_written_config_representable(f);
    } else {
        lemma_lines_of_text(f);
        assert(all_peer_lines(f.peers) =~= Seq::<Seq<char>>::empty());
        assert(text_lines(f) =~= iface_lines(f));
        lemma_iface_headers(f);
        lemma_rep_peer_count(text_lines(f));
    }
}

} // verus!
