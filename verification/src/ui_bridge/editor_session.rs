//! The editor window's decisions on the structured fields: which peer the
//! form shows, committing the visible form back into the config's fields,
//! adding and removing peers, setting a peer's preshared key, and whether
//! and how a save goes ahead.
use vstd::prelude::*;
use crate::text::{chars_of, dec, push_dec, push_str, string_of};
use crate::ui_bridge::editor_form::{
    config_fields, config_to_fields, empty_peer, form_representable, representable, ensure_peer_spec, lemma_peer_views_push, peer_views,
    FieldsView, Fields, PeerFields, PeerFieldsView,
};

verus! {

// ---------------------------------------------------------------------------
// Which peer the form shows
// ---------------------------------------------------------------------------

/// The form's peer index read back as a position: negative means the first.
pub open spec fn index_of(peer_index: int) -> int {
    if peer_index < 0 {
        0
    } else {
        peer_index
    }
}

/// A requested peer position clamped to the last of `count` peers.
pub open spec fn slot(requested: int, count: int) -> int {
    if requested < count - 1 {
        requested
    } else {
        count - 1
    }
}

/// The position of the peer the form shows when `requested` is asked for
/// among `count` peers.
pub fn peer_slot(requested: usize, count: usize) -> (r: usize)
    requires
        count > 0,
    ensures
        r as int == slot(requested as int, count as int),
{
    if requested < count - 1 {
        requested
    } else {
        count - 1
    }
}

/// The `n of m` label over the peer navigation.
pub open spec fn label_text(idx: nat, count: nat) -> Seq<char> {
    dec(idx + 1) + " of "@ + dec(count)
}

/// The `n of m` label for the peer at position `idx` of `count`.
pub fn peer_label(idx: usize, count: usize) -> (r: String)
    requires
        idx < count,
    ensures
        r@ == label_text(idx as nat, count as nat),
{
    let mut out = String::new();
    push_dec(&mut out, (idx + 1) as u64);
    push_str(&mut out, " of ");
    push_dec(&mut out, count as u64);
    out
}

fn copy_text(s: &String) -> (r: String)
    ensures
        r@ == s@,
{
    string_of(chars_of(s.as_str()).as_slice())
}

fn copy_peer(p: &PeerFields) -> (r: PeerFields)
    ensures
        r@ == p@,
{
    PeerFields {
        peer_public_key: copy_text(&p.peer_public_key),
        preshared_key: copy_text(&p.preshared_key),
        allowed_ips: copy_text(&p.allowed_ips),
        endpoint: copy_text(&p.endpoint),
        keepalive: copy_text(&p.keepalive),
    }
}

fn position(peer_index: i32) -> (r: usize)
    ensures
        r as int == index_of(peer_index as int),
{
    if peer_index < 0 {
        0
    } else {
        peer_index as usize
    }
}

// ---------------------------------------------------------------------------
// Opening the form
// ---------------------------------------------------------------------------

/// Whether the editor opens in the structured form: only for a new tunnel
/// whose config the form can represent; anything else opens as raw text, so
/// no part the form cannot show is dropped on save. (Switching to the form
/// later is refused by the same `form_representable` test.)
pub open spec fn opens_in_form_spec(is_new: bool, text: Seq<char>) -> bool {
    is_new && representable(text)
}

/// Whether the editor opens in the form (see [`opens_in_form_spec`]).
pub fn opens_in_form(is_new: bool, text: &str) -> (r: bool)
    ensures
        r == opens_in_form_spec(is_new, text@),
{
    is_new && form_representable(text)
}

// ---------------------------------------------------------------------------
// Committing the form
// ---------------------------------------------------------------------------

/// The config's fields with the form's values written over them: the
/// Interface values, and the visible peer at its position; the peers the
/// form does not show are kept.
pub open spec fn merged(text: Seq<char>, form: FieldsView, peer_index: int) -> FieldsView {
    let f = ensure_peer_spec(config_fields(text));
    let idx = slot(index_of(peer_index), f.peers.len() as int);
    FieldsView {
        private_key: form.private_key,
        address: form.address,
        dns: form.dns,
        listen_port: form.listen_port,
        mtu: form.mtu,
        peers: f.peers.update(idx, form.peers[0]),
    }
}

/// Reads the form back into fields: `form` holds the Interface values and
/// the visible peer as its first peer, shown at `peer_index` of the peers of
/// `config_text` (see [`merged`]).
pub fn merge_form(config_text: &str, form: &Fields, peer_index: i32) -> (r: Fields)
    requires
        form@.peers.len() >= 1,
    ensures
        r@ == merged(config_text@, form@, peer_index as int),
{
    let mut f = config_to_fields(config_text);
    f.ensure_peer();
    let idx = peer_slot(position(peer_index), f.peers.len());
    let p = copy_peer(&form.peers[0]);
    assert(form@.peers[0] == form.peers@[0]@);
    let ghost before = f.peers@;
    f.peers.set(idx, p);
    assert(peer_views(f.peers@) =~= peer_views(before).update(idx as int, p@));
    f.private_key = copy_text(&form.private_key);
    f.address = copy_text(&form.address);
    f.dns = copy_text(&form.dns);
    f.listen_port = copy_text(&form.listen_port);
    f.mtu = copy_text(&form.mtu);
    f
}

// ---------------------------------------------------------------------------
// Adding and removing peers
// ---------------------------------------------------------------------------

/// `f` with an empty peer added at the end.
pub open spec fn with_added_peer(f: FieldsView) -> FieldsView {
    FieldsView { peers: f.peers.push(empty_peer()), ..f }
}

/// Adds an empty peer; returns its position, which the form then shows.
pub fn add_peer(f: &mut Fields) -> (r: usize)
    requires
        old(f).peers@.len() < usize::MAX,
    ensures
        final(f)@ == with_added_peer(old(f)@),
        r == old(f)@.peers.len(),
{
    let p = PeerFields::default();
    proof {
        lemma_peer_views_push(f.peers@, p);
    }
    f.peers.push(p);
    f.peers.len() - 1
}

/// `f` without the peer the form shows at `peer_index`.
pub open spec fn without_peer(f: FieldsView, peer_index: int) -> FieldsView {
    FieldsView { peers: f.peers.remove(slot(index_of(peer_index), f.peers.len() as int)), ..f }
}

/// Removes the peer the form shows, unless it is the only one; returns the
/// position of the peer the form shows next, or nothing when no peer was
/// removed.
pub fn remove_peer(f: &mut Fields, peer_index: i32) -> (r: Option<usize>)
    ensures
        old(f)@.peers.len() <= 1 ==> r is None && final(f)@ == old(f)@,
        old(f)@.peers.len() > 1 ==> final(f)@ == without_peer(old(f)@, peer_index as int) && r == Some(
            slot(slot(index_of(peer_index as int), old(f)@.peers.len() as int), old(f)@.peers.len() - 1) as usize,
        ),
{
    if f.peers.len() <= 1 {
        return None;
    }
    let idx = peer_slot(position(peer_index), f.peers.len());
    let ghost before = f.peers@;
    let _gone = f.peers.remove(idx);
    assert(peer_views(f.peers@) =~= peer_views(before).remove(idx as int));
    Some(peer_slot(idx, f.peers.len()))
}

// ---------------------------------------------------------------------------
// Preshared key
// ---------------------------------------------------------------------------

/// `f` (given a peer if it has none) with `psk` as the preshared key of the
/// peer the form shows at `peer_index`.
pub open spec fn with_peer_psk(f: FieldsView, peer_index: int, psk: Seq<char>) -> FieldsView {
    let g = ensure_peer_spec(f);
    let idx = slot(index_of(peer_index), g.peers.len() as int);
    FieldsView { peers: g.peers.update(idx, PeerFieldsView { preshared_key: psk, ..g.peers[idx] }), ..g }
}

/// Sets the preshared key of the peer the form shows; returns that peer's
/// position.
pub fn set_peer_psk(f: &mut Fields, peer_index: i32, psk: String) -> (r: usize)
    ensures
        final(f)@ == with_peer_psk(old(f)@, peer_index as int, psk@),
        r as int == slot(index_of(peer_index as int), ensure_peer_spec(old(f)@).peers.len() as int),
{
    f.ensure_peer();
    assert(f.peers@.len() == f@.peers.len());
    let idx = peer_slot(position(peer_index), f.peers.len());
    let ghost before = f.peers@;
    f.peers[idx].preshared_key = psk;
    assert(peer_views(f.peers@) =~= peer_views(before).update(
        idx as int,
        PeerFieldsView { preshared_key: psk@, ..peer_views(before)[idx as int] },
    ));
    idx
}

// ---------------------------------------------------------------------------
// Saving
// ---------------------------------------------------------------------------

/// A save that goes ahead renames the tunnel (an existing tunnel saved
/// under another name) or writes it under its name.
pub open spec fn renames(orig_name: Seq<char>, name: Seq<char>) -> bool {
    orig_name.len() > 0 && orig_name != name
}

/// Whether a save under `name` goes ahead: a new or renamed tunnel may not
/// take the name of one that exists. `Ok` says whether it renames.
pub open spec fn save_decision(orig_name: Seq<char>, name: Seq<char>, name_exists: bool) -> Result<bool, Seq<char>> {
    let renaming = renames(orig_name, name);
    if (renaming || orig_name.len() == 0) && name_exists {
        Err("A tunnel named \u{201c}"@ + name + "\u{201d} already exists."@)
    } else {
        Ok(renaming)
    }
}

/// Decides whether a save under `name` goes ahead (see [`save_decision`]).
pub fn check_save(orig_name: &str, name: &str, name_exists: bool) -> (r: Result<bool, String>)
    ensures
        match save_decision(orig_name@, name@, name_exists) {
            Ok(b) => r == Ok::<bool, String>(b),
            Err(e) => r matches Err(m) && m@ == e,
        },
{
    let o = chars_of(orig_name);
    let n = chars_of(name);
    let renaming = o.len() > 0 && !crate::text::chars_eq(o.as_slice(), n.as_slice());
    if (renaming || o.len() == 0) && name_exists {
        let mut m = String::new();
        push_str(&mut m, "A tunnel named \u{201c}");
        push_str(&mut m, name);
        push_str(&mut m, "\u{201d} already exists.");
        return Err(m);
    }
    Ok(renaming)
}

/// What happened after the config was written.
pub enum SaveOutcome {
    /// The tunnel was renamed.
    Renamed,
    /// The tunnel was saved and then activated, with the activation's result.
    Activated(Result<(), String>),
    /// The tunnel is up and the change was applied to it, with the result.
    AppliedLive(Result<(), String>),
    /// The tunnel was saved while down.
    Saved,
}

/// The status line after a save.
pub open spec fn save_text(orig_name: Seq<char>, name: Seq<char>, outcome: SaveOutcome) -> Seq<char> {
    match outcome {
        SaveOutcome::Renamed => "Renamed "@ + orig_name + " \u{2192} "@ + name,
        SaveOutcome::Activated(Ok(())) => "Created and activated "@ + name,
        SaveOutcome::Activated(Err(e)) => "Created "@ + name + ", but activation failed: "@ + e@,
        SaveOutcome::AppliedLive(Ok(())) => "Saved "@ + name + " (applied live)"@,
        SaveOutcome::AppliedLive(Err(_)) => "Saved "@ + name + " \u{2014} reconnect to apply Address/DNS/MTU/routes"@,
        SaveOutcome::Saved => if orig_name.len() == 0 {
            "Created "@ + name
        } else {
            "Saved "@ + name
        },
    }
}

/// The status line after a save (see [`save_text`]).
pub fn save_status(orig_name: &str, name: &str, outcome: &SaveOutcome) -> (r: String)
    ensures
        r@ == save_text(orig_name@, name@, *outcome),
{
    let mut m = String::new();
    match outcome {
        SaveOutcome::Renamed => {
            push_str(&mut m, "Renamed ");
            push_str(&mut m, orig_name);
            push_str(&mut m, " \u{2192} ");
            push_str(&mut m, name);
        },
        SaveOutcome::Activated(Ok(())) => {
            push_str(&mut m, "Created and activated ");
            push_str(&mut m, name);
        },
        SaveOutcome::Activated(Err(e)) => {
            push_str(&mut m, "Created ");
            push_str(&mut m, name);
            push_str(&mut m, ", but activation failed: ");
            push_str(&mut m, e.as_str());
        },
        SaveOutcome::AppliedLive(Ok(())) => {
            push_str(&mut m, "Saved ");
            push_str(&mut m, name);
            push_str(&mut m, " (applied live)");
        },
        SaveOutcome::AppliedLive(Err(_)) => {
            push_str(&mut m, "Saved ");
            push_str(&mut m, name);
            push_str(&mut m, " \u{2014} reconnect to apply Address/DNS/MTU/routes");
        },
        SaveOutcome::Saved => {
            if chars_of(orig_name).len() == 0 {
                push_str(&mut m, "Created ");
            } else {
                push_str(&mut m, "Saved ");
            }
            push_str(&mut m, name);
        },
    }
    m
}

/// The error line when writing the config failed.
pub open spec fn save_failed_text(renaming: bool, err: Seq<char>) -> Seq<char> {
    (if renaming {
        "Rename"@
    } else {
        "Save"@
    }) + " failed: "@ + err
}

/// The error line when writing the config failed (see [`save_failed_text`]).
pub fn save_failed(renaming: bool, err: &str) -> (r: String)
    ensures
        r@ == save_failed_text(renaming, err@),
{
    let mut m = String::new();
    if renaming {
        push_str(&mut m, "Rename");
    } else {
        push_str(&mut m, "Save");
    }
    push_str(&mut m, " failed: ");
    push_str(&mut m, err);
    m
}

// ---------------------------------------------------------------------------
// Laws
// ---------------------------------------------------------------------------

/// Removing the peer just added gives the fields back as they were.
pub proof fn law_remove_added_peer(f: FieldsView)
    ensures
        without_peer(with_added_peer(f), f.peers.len() as int) == f,
{
    let g = with_added_peer(f);
    assert(slot(index_of(f.peers.len() as int), g.peers.len() as int) == f.peers.len());
    assert(g.peers.remove(f.peers.len() as int) =~= f.peers);
}

/// Committing the form changes only the visible peer: every other peer of
/// the config is kept as it was.
pub proof fn law_merge_keeps_other_peers(text: Seq<char>, form: FieldsView, peer_index: int, j: int)
    requires
        form.peers.len() >= 1,
        0 <= j < ensure_peer_spec(config_fields(text)).peers.len(),
        j != slot(index_of(peer_index), ensure_peer_spec(config_fields(text)).peers.len() as int),
    ensures
        merged(text, form, peer_index).peers.len() == ensure_peer_spec(config_fields(text)).peers.len(),
        merged(text, form, peer_index).peers[j] == ensure_peer_spec(config_fields(text)).peers[j],
{
}

/// Committing the form takes every Interface value from the form (the
/// private key, the addresses, the DNS servers, the listen port and the MTU)
/// and puts the form's peer at the position it is shown at.
pub proof fn law_merge_takes_form_values(text: Seq<char>, form: FieldsView, peer_index: int)
    requires
        form.peers.len() >= 1,
    ensures
        merged(text, form, peer_index).private_key == form.private_key,
        merged(text, form, peer_index).address == form.address,
        merged(text, form, peer_index).dns == form.dns,
        merged(text, form, peer_index).listen_port == form.listen_port,
        merged(text, form, peer_index).mtu == form.mtu,
        merged(text, form, peer_index).peers[slot(index_of(peer_index), ensure_peer_spec(config_fields(text)).peers.len() as int)]
            == form.peers[0],
        0 <= slot(index_of(peer_index), ensure_peer_spec(config_fields(text)).peers.len() as int)
            < merged(text, form, peer_index).peers.len(),
{
}

} // verus!
