//! What the windows and the tray show about tunnels and updates: health
//! lines, the filtered log, tray labels, the setup checklist's commands and
//! the update messages.
use vstd::prelude::*;
use crate::backend::{bytes_text, fmt_bytes, Tunnel, TunnelView, tunnel_views};
use crate::text::{
    chars_eq, chars_of, dec, find_seq, find_seq_exec, has_prefix, join_strings, join_with, lines,
    lower_seq, lower_vec, push_dec, push_str, split_lines, starts_with, string_of, string_views,
    trim, trim_end, trim_end_at, trimmed, views, lemma_string_views_push, copy_range,
};
use crate::update::UpdateInfo;

verus! {

// ---------------------------------------------------------------------------
// Handshake health
// ---------------------------------------------------------------------------

/// A compact age: `12s` below a minute, `3m` below an hour, else `2h`.
pub open spec fn ago_text(s: nat) -> Seq<char> {
    if s < 60 {
        dec(s) + "s"@
    } else if s < 3600 {
        dec(s / 60) + "m"@
    } else {
        dec(s / 3600) + "h"@
    }
}

/// Compact "seconds ago" (see [`ago_text`]).
pub fn fmt_ago(s: u64) -> (r: String)
    ensures
        r@ == ago_text(s as nat),
{
    let mut out = String::new();
    if s < 60 {
        push_dec(&mut out, s);
        push_str(&mut out, "s");
    } else if s < 3600 {
        push_dec(&mut out, s / 60);
        push_str(&mut out, "m");
    } else {
        push_dec(&mut out, s / 3600);
        push_str(&mut out, "h");
    }
    out
}

/// The health line of a tunnel and whether it is healthy: nothing for a
/// tunnel that is down; healthy when the last handshake is under three
/// minutes old; stale when older; waiting when there has been none.
pub open spec fn health_text(active: bool, age: Option<nat>) -> (Seq<char>, bool) {
    if !active {
        (Seq::empty(), false)
    } else {
        match age {
            Some(s) => if s < 180 {
                ("OK (last handshake "@ + ago_text(s) + " ago)"@, true)
            } else {
                ("stale (last handshake "@ + ago_text(s) + " ago)"@, false)
            },
            None => ("waiting for handshake\u{2026}"@, false),
        }
    }
}

pub open spec fn age_view(age: Option<u64>) -> Option<nat> {
    match age {
        Some(s) => Some(s as nat),
        None => None,
    }
}

/// Connection-health text and whether it is healthy (see [`health_text`]).
pub fn health_str(active: bool, age: Option<u64>) -> (r: (String, bool))
    ensures
        (r.0@, r.1) == health_text(active, age_view(age)),
{
    if !active {
        return (String::new(), false);
    }
    match age {
        Some(s) => {
            let ago = fmt_ago(s);
            let mut out = String::new();
            let good = s < 180;
            if good {
                push_str(&mut out, "OK (last handshake ");
            } else {
                push_str(&mut out, "stale (last handshake ");
            }
            push_str(&mut out, ago.as_str());
            push_str(&mut out, " ago)");
            (out, good)
        },
        None => {
            let mut out = String::new();
            push_str(&mut out, "waiting for handshake\u{2026}");
            (out, false)
        },
    }
}

// ---------------------------------------------------------------------------
// Log view
// ---------------------------------------------------------------------------

pub open spec fn str_opt(o: Option<&str>) -> Option<Seq<char>> {
    match o {
        Some(s) => Some(s@),
        None => None,
    }
}

/// `s` holds `p` somewhere (`str::contains`).
pub open spec fn holds(s: Seq<char>, p: Seq<char>) -> bool {
    find_seq(s, p) is Some
}

/// A log line passes the filter when it holds the lower-cased filter text,
/// in any letter case, and, when the view is narrowed to one tunnel, that
/// tunnel's name.
pub open spec fn log_line_shown(line: Seq<char>, needle: Seq<char>, only: Option<Seq<char>>) -> bool {
    (needle.len() == 0 || holds(lower_seq(line), needle)) && match only {
        Some(n) => holds(line, n),
        None => true,
    }
}

/// The lines of `ls` that pass the filter, in order.
pub open spec fn filter_log(ls: Seq<Seq<char>>, needle: Seq<char>, only: Option<Seq<char>>) -> Seq<Seq<char>>
    decreases ls.len(),
{
    if ls.len() == 0 {
        Seq::empty()
    } else {
        let prev = filter_log(ls.drop_last(), needle, only);
        if log_line_shown(ls.last(), needle, only) {
            prev.push(ls.last())
        } else {
            prev
        }
    }
}

/// What the Log tab shows for the raw log text: a placeholder while nothing
/// is loaded, an error or empty-log notice verbatim, else the lines that
/// pass the filter, or a notice that none does.
pub open spec fn log_view(raw: Seq<char>, filter: Seq<char>, only: Option<Seq<char>>) -> Seq<Seq<char>> {
    if raw.len() == 0 {
        seq!["(loading\u{2026} press Refresh if this stays empty)"@]
    } else if starts_with(raw, "Could not read the log:"@) || raw == "(no recent log entries)"@ {
        lines(raw)
    } else {
        let shown = filter_log(lines(raw), lower_seq(filter), only);
        if shown.len() == 0 {
            seq!["(no log lines match the current filter)"@]
        } else {
            shown
        }
    }
}

fn holds_exec(s: &[char], p: &[char]) -> (r: bool)
    ensures
        r == holds(s@, p@),
{
    find_seq_exec(s, p).is_some()
}

fn one_line(s: &str) -> (r: Vec<String>)
    ensures
        string_views(r@) == seq![s@],
{
    let mut v: Vec<String> = Vec::new();
    v.push(string_of(chars_of(s).as_slice()));
    assert(string_views(v@) =~= seq![s@]);
    v
}

/// The Log tab's lines for `raw` under the filter text and the optional
/// one-tunnel narrowing (see [`log_view`]).
pub fn log_lines(raw: &str, filter: &str, only: Option<&str>) -> (r: Vec<String>)
    ensures
        string_views(r@) == log_view(raw@, filter@, str_opt(only)),
{
    let rv = chars_of(raw);
    if rv.len() == 0 {
        return one_line("(loading\u{2026} press Refresh if this stays empty)");
    }
    let err = chars_of("Could not read the log:");
    let none = chars_of("(no recent log entries)");
    let ls = split_lines(rv.as_slice());
    let mut out: Vec<String> = Vec::new();
    if has_prefix(rv.as_slice(), err.as_slice()) || chars_eq(rv.as_slice(), none.as_slice()) {
        let mut i: usize = 0;
        while i < ls.len()
            invariant
                i <= ls@.len(),
                string_views(out@) == views(ls@).subrange(0, i as int),
            decreases ls@.len() - i,
        {
            let line = string_of(ls[i].as_slice());
            assert(line@ == views(ls@)[i as int]);
            proof {
                lemma_string_views_push(out@, line);
            }
            out.push(line);
            assert(string_views(out@) =~= views(ls@).subrange(0, i + 1));
            i += 1;
        }
        assert(views(ls@).subrange(0, ls@.len() as int) =~= views(ls@));
        return out;
    }
    let fv = chars_of(filter);
    let needle = lower_vec(fv.as_slice());
    let narrow: Option<Vec<char>> = match only {
        Some(n) => Some(chars_of(n)),
        None => None,
    };
    let mut i: usize = 0;
    while i < ls.len()
        invariant
            i <= ls@.len(),
            needle@ == lower_seq(filter@),
            match only {
                Some(n) => narrow matches Some(w) && w@ == n@,
                None => narrow is None,
            },
            string_views(out@) == filter_log(views(ls@).subrange(0, i as int), needle@, str_opt(only)),
        decreases ls@.len() - i,
    {
        let ghost pre = views(ls@).subrange(0, i as int);
        assert(views(ls@).subrange(0, i + 1).drop_last() =~= pre);
        assert(views(ls@).subrange(0, i + 1).last() == ls@[i as int]@);
        let line = ls[i].as_slice();
        let low = lower_vec(line);
        let by_text = needle.len() == 0 || holds_exec(low.as_slice(), needle.as_slice());
        let by_tunnel = match &narrow {
            Some(w) => holds_exec(line, w.as_slice()),
            None => true,
        };
        if by_text && by_tunnel {
            let kept = string_of(line);
            proof {
                lemma_string_views_push(out@, kept);
            }
            out.push(kept);
            assert(string_views(out@) =~= filter_log(pre, needle@, str_opt(only)).push(line@));
        }
        i += 1;
    }
    assert(views(ls@).subrange(0, ls@.len() as int) =~= views(ls@));
    if out.len() == 0 {
        return one_line("(no log lines match the current filter)");
    }
    out
}

// ---------------------------------------------------------------------------
// Tray
// ---------------------------------------------------------------------------

/// The names of the tunnels that are up, in order.
pub open spec fn active_of(ts: Seq<TunnelView>) -> Seq<Seq<char>>
    decreases ts.len(),
{
    if ts.len() == 0 {
        Seq::empty()
    } else if ts.last().active {
        active_of(ts.drop_last()).push(ts.last().name)
    } else {
        active_of(ts.drop_last())
    }
}

/// The names of the tunnels that are up.
pub fn active_names(tunnels: &Vec<Tunnel>) -> (r: Vec<String>)
    ensures
        string_views(r@) == active_of(tunnel_views(tunnels@)),
{
    let mut out: Vec<String> = Vec::new();
    let mut i: usize = 0;
    while i < tunnels.len()
        invariant
            i <= tunnels@.len(),
            string_views(out@) == active_of(tunnel_views(tunnels@).subrange(0, i as int)),
        decreases tunnels@.len() - i,
    {
        let ghost pre = tunnel_views(tunnels@).subrange(0, i as int);
        assert(tunnel_views(tunnels@).subrange(0, i + 1).drop_last() =~= pre);
        assert(tunnel_views(tunnels@).subrange(0, i + 1).last() == tunnels@[i as int]@);
        if tunnels[i].active {
            let name = string_of(chars_of(tunnels[i].name.as_str()).as_slice());
            proof {
                lemma_string_views_push(out@, name);
            }
            out.push(name);
            assert(string_views(out@) =~= active_of(pre).push(tunnels@[i as int].name@));
        }
        i += 1;
    }
    assert(tunnel_views(tunnels@).subrange(0, tunnels@.len() as int) =~= tunnel_views(tunnels@));
    out
}

/// The tray menu's status header: the connected tunnels, or that none is.
pub open spec fn menu_header(ts: Seq<TunnelView>) -> Seq<char> {
    let act = active_of(ts);
    if act.len() > 0 {
        "Connected: "@ + join_with(act, ", "@)
    } else {
        "Not connected"@
    }
}

/// The tray tooltip: the live summary kept by the poller, or, before it has
/// run, the active tunnels.
pub open spec fn tooltip_text(info: Seq<char>, ts: Seq<TunnelView>) -> Seq<char> {
    let act = active_of(ts);
    if info.len() > 0 {
        info
    } else if act.len() == 0 {
        "No active tunnel"@
    } else {
        "Active: "@ + join_with(act, ", "@)
    }
}

/// The tray menu's status header (see [`menu_header`]).
pub fn tray_header(tunnels: &Vec<Tunnel>) -> (r: String)
    ensures
        r@ == menu_header(tunnel_views(tunnels@)),
{
    let act = active_names(tunnels);
    let mut out = String::new();
    if act.len() > 0 {
        push_str(&mut out, "Connected: ");
        let j = join_strings(&act, ", ");
        push_str(&mut out, j.as_str());
    } else {
        push_str(&mut out, "Not connected");
    }
    out
}

/// The tray tooltip (see [`tooltip_text`]).
pub fn tray_tooltip(info: &str, tunnels: &Vec<Tunnel>) -> (r: String)
    ensures
        r@ == tooltip_text(info@, tunnel_views(tunnels@)),
{
    let act = active_names(tunnels);
    let mut out = String::new();
    if chars_of(info).len() > 0 {
        push_str(&mut out, info);
    } else if act.len() == 0 {
        push_str(&mut out, "No active tunnel");
    } else {
        push_str(&mut out, "Active: ");
        let j = join_strings(&act, ", ");
        push_str(&mut out, j.as_str());
    }
    out
}

/// Some tunnel named `name` is up.
pub open spec fn is_up(ts: Seq<TunnelView>, name: Seq<char>) -> bool {
    exists|i: int| 0 <= i < ts.len() && #[trigger] ts[i].name == name && ts[i].active
}

/// Whether a tunnel named `name` is up: a tray toggle takes it down if so,
/// else brings it up.
pub fn tunnel_is_up(tunnels: &Vec<Tunnel>, name: &str) -> (r: bool)
    ensures
        r == is_up(tunnel_views(tunnels@), name@),
{
    let n = chars_of(name);
    let mut i: usize = 0;
    while i < tunnels.len()
        invariant
            i <= tunnels@.len(),
            n@ == name@,
            forall|j: int| 0 <= j < i ==> !(tunnels@[j].name@ == name@ && tunnels@[j].active),
        decreases tunnels@.len() - i,
    {
        let c = chars_of(tunnels[i].name.as_str());
        if tunnels[i].active && chars_eq(c.as_slice(), n.as_slice()) {
            assert(tunnel_views(tunnels@)[i as int].name == name@);
            return true;
        }
        i += 1;
    }
    assert forall|j: int| 0 <= j < tunnel_views(tunnels@).len() implies !(#[trigger] tunnel_views(tunnels@)[j].name == name@
        && tunnel_views(tunnels@)[j].active) by {
        assert(tunnel_views(tunnels@)[j] == tunnels@[j]@);
    }
    false
}

/// Index of the first tunnel named `name`.
pub open spec fn first_named(ts: Seq<TunnelView>, name: Seq<char>) -> Option<int>
    decreases ts.len(),
{
    if ts.len() == 0 {
        None
    } else if ts[0].name == name {
        Some(0)
    } else {
        match first_named(ts.drop_first(), name) {
            Some(i) => Some(i + 1),
            None => None,
        }
    }
}

/// Index of the last tunnel named `name`.
pub open spec fn last_named(ts: Seq<TunnelView>, name: Seq<char>) -> Option<int>
    decreases ts.len(),
{
    if ts.len() == 0 {
        None
    } else if ts.last().name == name {
        Some(ts.len() - 1)
    } else {
        last_named(ts.drop_last(), name)
    }
}

/// The row selected after the list is rebuilt: the row of the tunnel that
/// was selected before, if it is still listed; the first row when nothing
/// was selected; else none.
pub open spec fn selection_after(ts: Seq<TunnelView>, prev: Option<Seq<char>>) -> Option<int> {
    match prev {
        Some(n) => last_named(ts, n),
        None => if ts.len() > 0 {
            Some(0)
        } else {
            None
        },
    }
}

fn names_equal(t: &Tunnel, name: &[char]) -> (r: bool)
    ensures
        r == (t@.name == name@),
{
    let c = chars_of(t.name.as_str());
    chars_eq(c.as_slice(), name)
}

/// The row of the first tunnel named `name`.
pub fn find_tunnel(tunnels: &Vec<Tunnel>, name: &str) -> (r: Option<usize>)
    ensures
        match first_named(tunnel_views(tunnels@), name@) {
            Some(i) => r == Some(i as usize),
            None => r is None,
        },
{
    let n = chars_of(name);
    let ghost ts = tunnel_views(tunnels@);
    let mut i: usize = 0;
    assert(ts.subrange(0, ts.len() as int) =~= ts);
    while i < tunnels.len()
        invariant
            i <= tunnels@.len(),
            n@ == name@,
            ts == tunnel_views(tunnels@),
            first_named(ts, name@) == match first_named(ts.subrange(i as int, ts.len() as int), name@) {
                Some(k) => Some(k + i),
                None => None,
            },
        decreases tunnels@.len() - i,
    {
        let ghost rest = ts.subrange(i as int, ts.len() as int);
        assert(rest[0] == tunnels@[i as int]@);
        assert(rest.drop_first() =~= ts.subrange(i + 1, ts.len() as int));
        if names_equal(&tunnels[i], n.as_slice()) {
            return Some(i);
        }
        i += 1;
    }
    assert(ts.subrange(i as int, ts.len() as int) =~= Seq::<TunnelView>::empty());
    None
}

/// The row to select after the tunnel list is rebuilt (see
/// [`selection_after`]).
pub fn refreshed_selection(tunnels: &Vec<Tunnel>, prev: Option<&str>) -> (r: Option<usize>)
    ensures
        match selection_after(tunnel_views(tunnels@), str_opt(prev)) {
            Some(i) => r == Some(i as usize),
            None => r is None,
        },
{
    let ghost ts = tunnel_views(tunnels@);
    match prev {
        None => {
            if tunnels.len() > 0 {
                Some(0)
            } else {
                None
            }
        },
        Some(p) => {
            let n = chars_of(p);
            let mut i: usize = tunnels.len();
            assert(ts.subrange(0, ts.len() as int) =~= ts);
            while i > 0
                invariant
                    i <= tunnels@.len(),
                    prev == Some(p),
                    n@ == p@,
                    ts == tunnel_views(tunnels@),
                    last_named(ts, p@) == last_named(ts.subrange(0, i as int), p@),
                decreases i,
            {
                let ghost pre = ts.subrange(0, i as int);
                assert(pre.last() == tunnels@[i - 1]@);
                assert(pre.drop_last() =~= ts.subrange(0, i - 1));
                if names_equal(&tunnels[i - 1], n.as_slice()) {
                    assert(last_named(pre, p@) == Some(i - 1));
                    assert(str_opt(prev) == Some(p@));
                    assert(selection_after(tunnel_views(tunnels@), str_opt(prev)) == Some(i - 1));
                    return Some(i - 1);
                }
                i -= 1;
            }
            assert(ts.subrange(0, 0) =~= Seq::<TunnelView>::empty());
            assert(ts.subrange(0, tunnels@.len() as int) =~= ts);
            None
        },
    }
}

// ---------------------------------------------------------------------------
// Setup checklist
// ---------------------------------------------------------------------------

/// One check of the setup checklist: whether it passed, and the command
/// that would fix it, where there is one.
pub struct Check {
    pub name: String,
    pub ok: bool,
    pub fix: Option<String>,
}

pub struct CheckView {
    pub name: Seq<char>,
    pub ok: bool,
    pub fix: Option<Seq<char>>,
}

impl View for Check {
    type V = CheckView;

    open spec fn view(&self) -> CheckView {
        CheckView {
            name: self.name@,
            ok: self.ok,
            fix: match self.fix {
                Some(f) => Some(f@),
                None => None,
            },
        }
    }
}

pub open spec fn check_views(v: Seq<Check>) -> Seq<CheckView> {
    Seq::new(v.len(), |i: int| v[i]@)
}

/// A `# name`, command and blank line for each failed check that has a fix.
pub open spec fn fix_blocks(cs: Seq<CheckView>) -> Seq<char>
    decreases cs.len(),
{
    if cs.len() == 0 {
        Seq::empty()
    } else {
        let prev = fix_blocks(cs.drop_last());
        let c = cs.last();
        match c.fix {
            Some(f) => if !c.ok {
                prev + "# "@ + c.name + "\n"@ + f + "\n\n"@
            } else {
                prev
            },
            None => prev,
        }
    }
}

/// The "Show commands" text: the fix blocks without the trailing blank
/// lines, or a note that nothing needs fixing.
pub open spec fn commands_view(cs: Seq<CheckView>) -> Seq<char> {
    let s = fix_blocks(cs);
    if s.len() == 0 {
        "Everything looks good."@
    } else {
        trim_end(s)
    }
}

/// The fix command of each failed check (see [`commands_view`]).
pub fn commands_text(checks: &Vec<Check>) -> (r: String)
    ensures
        r@ == commands_view(check_views(checks@)),
{
    let mut s = String::new();
    let mut i: usize = 0;
    while i < checks.len()
        invariant
            i <= checks@.len(),
            s@ == fix_blocks(check_views(checks@).subrange(0, i as int)),
        decreases checks@.len() - i,
    {
        let ghost pre = check_views(checks@).subrange(0, i as int);
        assert(check_views(checks@).subrange(0, i + 1).drop_last() =~= pre);
        assert(check_views(checks@).subrange(0, i + 1).last() == checks@[i as int]@);
        let c = &checks[i];
        if !c.ok {
            match &c.fix {
                Some(f) => {
                    push_str(&mut s, "# ");
                    push_str(&mut s, c.name.as_str());
                    push_str(&mut s, "\n");
                    push_str(&mut s, f.as_str());
                    push_str(&mut s, "\n\n");
                },
                None => {},
            }
        }
        i += 1;
    }
    assert(check_views(checks@).subrange(0, checks@.len() as int) =~= check_views(checks@));
    let v = chars_of(s.as_str());
    if v.len() == 0 {
        let mut out = String::new();
        push_str(&mut out, "Everything looks good.");
        return out;
    }
    let hi = trim_end_at(v.as_slice());
    string_of(copy_range(v.as_slice(), 0, hi).as_slice())
}

pub open spec fn opt_string(o: Option<String>) -> Option<Seq<char>> {
    match o {
        Some(s) => Some(s@),
        None => None,
    }
}

/// The steps that the setup wizard can run by itself: install the tools
/// when they are missing, a resolver when DNS is not handled, and create
/// the config directory when it is not there.
pub open spec fn fix_steps(
    tools_ok: bool,
    tools_cmd: Option<Seq<char>>,
    dns_ok: bool,
    dns_cmd: Option<Seq<char>>,
    dir_exists: bool,
) -> Seq<Seq<char>> {
    let a: Seq<Seq<char>> = match tools_cmd {
        Some(c) => if !tools_ok {
            seq![c]
        } else {
            Seq::empty()
        },
        None => Seq::empty(),
    };
    let b: Seq<Seq<char>> = match dns_cmd {
        Some(c) => if !dns_ok {
            a.push(c)
        } else {
            a
        },
        None => a,
    };
    if !dir_exists {
        b.push("install -d -m 700 /etc/wireguard"@)
    } else {
        b
    }
}

/// The one shell command that runs the automatic fix steps in turn, or
/// nothing when there is nothing to run.
pub open spec fn fix_script(
    tools_ok: bool,
    tools_cmd: Option<Seq<char>>,
    dns_ok: bool,
    dns_cmd: Option<Seq<char>>,
    dir_exists: bool,
) -> Option<Seq<char>> {
    let steps = fix_steps(tools_ok, tools_cmd, dns_ok, dns_cmd, dir_exists);
    if steps.len() == 0 {
        None
    } else {
        Some(join_with(steps, " && "@))
    }
}

/// The shell command for the wizard's automatic fix (see [`fix_script`]).
pub fn fix_command(
    tools_ok: bool,
    tools_cmd: Option<String>,
    dns_ok: bool,
    dns_cmd: Option<String>,
    dir_exists: bool,
) -> (r: Option<String>)
    ensures
        match fix_script(tools_ok, opt_string(tools_cmd), dns_ok, opt_string(dns_cmd), dir_exists) {
            Some(c) => r matches Some(s) && s@ == c,
            None => r is None,
        },
{
    let mut steps: Vec<String> = Vec::new();
    match tools_cmd {
        Some(c) => {
            if !tools_ok {
                proof {
                    lemma_string_views_push(steps@, c);
                }
                steps.push(c);
            }
        },
        None => {},
    }
    match dns_cmd {
        Some(c) => {
            if !dns_ok {
                proof {
                    lemma_string_views_push(steps@, c);
                }
                steps.push(c);
            }
        },
        None => {},
    }
    if !dir_exists {
        let d = string_of(chars_of("install -d -m 700 /etc/wireguard").as_slice());
        proof {
            lemma_string_views_push(steps@, d);
        }
        steps.push(d);
    }
    assert(string_views(steps@) =~= fix_steps(tools_ok, opt_string(tools_cmd), dns_ok, opt_string(dns_cmd), dir_exists));
    if steps.len() == 0 {
        None
    } else {
        Some(join_strings(&steps, " && "))
    }
}

// ---------------------------------------------------------------------------
// Updates window
// ---------------------------------------------------------------------------

/// The Updates window's status line after a check, and whether the update
/// button is offered.
pub open spec fn check_status_text(found: Result<Option<UpdateInfo>, String>, installed: Seq<char>) -> (Seq<char>, bool) {
    match found {
        Ok(Some(info)) => ("Update available: v"@ + info.current@ + " \u{2192} v"@ + info.latest@, true),
        Ok(None) => ("You are on the latest version (v"@ + installed + ")."@, false),
        Err(_) => ("Couldn't check for updates (offline?)."@, false),
    }
}

/// The status line after an update check (see [`check_status_text`]).
pub fn check_status(found: &Result<Option<UpdateInfo>, String>, installed: &str) -> (r: (String, bool))
    ensures
        (r.0@, r.1) == check_status_text(*found, installed@),
{
    let mut out = String::new();
    match found {
        Ok(Some(info)) => {
            push_str(&mut out, "Update available: v");
            push_str(&mut out, info.current.as_str());
            push_str(&mut out, " \u{2192} v");
            push_str(&mut out, info.latest.as_str());
            (out, true)
        },
        Ok(None) => {
            push_str(&mut out, "You are on the latest version (v");
            push_str(&mut out, installed);
            push_str(&mut out, ").");
            (out, false)
        },
        Err(_) => {
            push_str(&mut out, "Couldn't check for updates (offline?).");
            (out, false)
        },
    }
}

/// The status line after an install attempt.
pub open spec fn install_text(result: Result<(), String>) -> Seq<char> {
    match result {
        Ok(()) => "Update installed \u{2014} restart wireguard-gui to apply."@,
        Err(e) => "Update failed: "@ + e@,
    }
}

/// The status line after an install attempt (see [`install_text`]).
pub fn install_status(result: &Result<(), String>) -> (r: String)
    ensures
        r@ == install_text(*result),
{
    let mut out = String::new();
    match result {
        Ok(()) => push_str(&mut out, "Update installed \u{2014} restart wireguard-gui to apply."),
        Err(e) => {
            push_str(&mut out, "Update failed: ");
            push_str(&mut out, e.as_str());
        },
    }
    out
}

// ---------------------------------------------------------------------------
// Saved disclosure state
// ---------------------------------------------------------------------------

/// Whether the saved state text opens the "Advanced" section: `expanded`,
/// or `advanced` from the older Easy/Advanced toggle; anything else keeps it
/// collapsed.
pub open spec fn shows_advanced(saved: Seq<char>) -> bool {
    trim(saved) == "expanded"@ || trim(saved) == "advanced"@
}

/// The state text saved for the "Advanced" section.
pub open spec fn advanced_text(expanded: bool) -> Seq<char> {
    if expanded {
        "expanded"@
    } else {
        "collapsed"@
    }
}

/// Reads the saved disclosure state (see [`shows_advanced`]).
pub fn show_advanced(saved: &str) -> (r: bool)
    ensures
        r == shows_advanced(saved@),
{
    let v = chars_of(saved);
    let t = trimmed(v.as_slice());
    let e = chars_of("expanded");
    let a = chars_of("advanced");
    chars_eq(t.as_slice(), e.as_slice()) || chars_eq(t.as_slice(), a.as_slice())
}

/// The text to save for the disclosure state (see [`advanced_text`]).
pub fn advanced_state(expanded: bool) -> (r: &'static str)
    ensures
        r@ == advanced_text(expanded),
{
    if expanded {
        "expanded"
    } else {
        "collapsed"
    }
}

/// A saved disclosure state reads back as it was saved.
pub proof fn law_advanced_roundtrip(expanded: bool)
    ensures
        shows_advanced(advanced_text(expanded)) == expanded,
{
    reveal_strlit("expanded");
    reveal_strlit("collapsed");
    reveal_strlit("advanced");
    let s = advanced_text(expanded);
    crate::text::lemma_trim_noop(s);
    if !expanded {
        assert(s[0] == 'c');
        assert("expanded"@[0] == 'e');
        assert("advanced"@[0] == 'a');
    }
}

// ---------------------------------------------------------------------------
// Importing files
// ---------------------------------------------------------------------------

/// The status line after importing several files: how many tunnels were
/// imported and how many files were skipped as invalid, with a warning
/// when an imported config runs scripts as root; nothing when there was
/// nothing to import.
pub open spec fn import_text(count: nat, skipped: nat, scripts: bool) -> Option<Seq<char>> {
    if count > 0 {
        Some(
            "Imported "@ + dec(count) + " tunnel(s)"@ + (if skipped > 0 {
                ", "@ + dec(skipped) + " skipped (invalid)"@
            } else {
                Seq::empty()
            }) + (if scripts {
                " \u{2014} \u{26a0} some run scripts as root"@
            } else {
                Seq::empty()
            }),
        )
    } else if skipped > 0 {
        Some("Nothing imported \u{2014} "@ + dec(skipped) + " file(s) invalid"@)
    } else {
        None
    }
}

/// The status line after importing several files (see [`import_text`]).
pub fn import_status(count: u64, skipped: u64, scripts: bool) -> (r: Option<String>)
    ensures
        match import_text(count as nat, skipped as nat, scripts) {
            Some(t) => r matches Some(m) && m@ == t,
            None => r is None,
        },
{
    if count > 0 {
        let mut m = String::new();
        push_str(&mut m, "Imported ");
        push_dec(&mut m, count);
        push_str(&mut m, " tunnel(s)");
        if skipped > 0 {
            push_str(&mut m, ", ");
            push_dec(&mut m, skipped);
            push_str(&mut m, " skipped (invalid)");
        }
        if scripts {
            push_str(&mut m, " \u{2014} \u{26a0} some run scripts as root");
        }
        proof {
            let a = "Imported "@ + dec(count as nat) + " tunnel(s)"@;
            let b = if skipped > 0 { ", "@ + dec(skipped as nat) + " skipped (invalid)"@ } else { Seq::<char>::empty() };
            let c = if scripts { " \u{2014} \u{26a0} some run scripts as root"@ } else { Seq::<char>::empty() };
            assert(m@ =~= a + b + c);
        }
        Some(m)
    } else if skipped > 0 {
        let mut m = String::new();
        push_str(&mut m, "Nothing imported \u{2014} ");
        push_dec(&mut m, skipped);
        push_str(&mut m, " file(s) invalid");
        Some(m)
    } else {
        None
    }
}

// ---------------------------------------------------------------------------
// Live polling
// ---------------------------------------------------------------------------

/// The live summary the poller keeps for the tray: the active tunnels,
/// with the selected tunnel's throughput when there is one.
pub open spec fn summary_text(ts: Seq<TunnelView>, speed: Seq<char>) -> Seq<char> {
    let act = active_of(ts);
    if act.len() == 0 {
        "No active tunnel"@
    } else if speed.len() == 0 {
        "Active: "@ + join_with(act, ", "@)
    } else {
        "Active: "@ + join_with(act, ", "@) + " \u{b7} "@ + speed
    }
}

/// The live summary for the tray (see [`summary_text`]).
pub fn tray_summary(tunnels: &Vec<Tunnel>, speed: &str) -> (r: String)
    ensures
        r@ == summary_text(tunnel_views(tunnels@), speed@),
{
    let act = active_names(tunnels);
    let mut out = String::new();
    if act.len() == 0 {
        push_str(&mut out, "No active tunnel");
    } else {
        push_str(&mut out, "Active: ");
        let j = join_strings(&act, ", ");
        push_str(&mut out, j.as_str());
        if chars_of(speed).len() > 0 {
            push_str(&mut out, " \u{b7} ");
            push_str(&mut out, speed);
        }
    }
    out
}

/// The throughput line from byte rates per second, down then up.
pub open spec fn speed_line(rx_rate: nat, tx_rate: nat) -> Seq<char> {
    "\u{2193} "@ + bytes_text(rx_rate) + "/s   \u{2191} "@ + bytes_text(tx_rate) + "/s"@
}

/// The throughput line (see [`speed_line`]).
pub fn speed_text(rx_rate: u64, tx_rate: u64) -> (r: String)
    ensures
        r@ == speed_line(rx_rate as nat, tx_rate as nat),
{
    let mut out = String::new();
    push_str(&mut out, "\u{2193} ");
    let a = fmt_bytes(rx_rate);
    push_str(&mut out, a.as_str());
    push_str(&mut out, "/s   \u{2191} ");
    let b = fmt_bytes(tx_rate);
    push_str(&mut out, b.as_str());
    push_str(&mut out, "/s");
    out
}

/// The warning over a tunnel that is up but not connected: no handshake
/// yet, or none for over three minutes.
pub open spec fn stuck_text(active: bool, age: Option<nat>) -> Seq<char> {
    if active && match age {
        None => true,
        Some(a) => a > 180,
    } {
        "Not connected: no handshake yet. Click Diagnose for why."@
    } else {
        Seq::empty()
    }
}

/// The "active but not connected" warning (see [`stuck_text`]).
pub fn connection_warning(active: bool, age: Option<u64>) -> (r: &'static str)
    ensures
        r@ == stuck_text(active, age_view(age)),
{
    let stuck = active && match age {
        None => true,
        Some(a) => a > 180,
    };
    if stuck {
        "Not connected: no handshake yet. Click Diagnose for why."
    } else {
        proof {
            reveal_strlit("");
        }
        ""
    }
}

// ---------------------------------------------------------------------------
// Laws
// ---------------------------------------------------------------------------

proof fn lemma_lines_nonempty(s: Seq<char>)
    requires
        s.len() > 0,
    ensures
        lines(s).len() > 0,
{
    let prev = crate::text::lines_acc(s.drop_last());
    if s.last() == '\n' {
        assert(crate::text::lines_acc(s).0 == prev.0.push(crate::text::strip_cr(prev.1)));
    } else {
        assert(crate::text::lines_acc(s).1 == prev.1.push(s.last()));
    }
}

/// The Log tab is never blank: whatever the log text, filter and narrowing,
/// it shows at least one line.
pub proof fn law_log_view_never_blank(raw: Seq<char>, filter: Seq<char>, only: Option<Seq<char>>)
    ensures
        log_view(raw, filter, only).len() >= 1,
{
    if raw.len() > 0 {
        lemma_lines_nonempty(raw);
    }
}

/// Without a filter text or a tunnel to narrow to, every line of the log is
/// shown, in order.
pub proof fn law_unfiltered_log_shows_all(ls: Seq<Seq<char>>)
    ensures
        filter_log(ls, Seq::empty(), None) == ls,
    decreases ls.len(),
{
    if ls.len() > 0 {
        law_unfiltered_log_shows_all(ls.drop_last());
        assert(ls.drop_last().push(ls.last()) =~= ls);
    }
}


/// Whenever something was imported, the root-scripts warning is appended to
/// the summary exactly when an imported config runs scripts, whether or not
/// files were skipped: the line with it is the line without it plus the
/// warning, and the line without it does not end in the warning.
pub proof fn law_import_scripts_warning(count: nat, skipped: nat)
    requires
        count > 0,
    ensures
        import_text(count, skipped, false) matches Some(plain) && {
            let w = " \u{2014} \u{26a0} some run scripts as root"@;
            &&& import_text(count, skipped, true) == Some(plain + w)
            &&& plain.last() == ')'
            &&& w.last() == 't'
        },
{
    reveal_strlit(" \u{2014} \u{26a0} some run scripts as root");
    reveal_strlit(" tunnel(s)");
    reveal_strlit(" skipped (invalid)");
    let w = " \u{2014} \u{26a0} some run scripts as root"@;
    let a = "Imported "@ + dec(count) + " tunnel(s)"@;
    let b = if skipped > 0 { ", "@ + dec(skipped) + " skipped (invalid)"@ } else { Seq::<char>::empty() };
    assert(import_text(count, skipped, false) == Some(a + b + Seq::<char>::empty()));
    assert(a + b + Seq::<char>::empty() =~= a + b);
    assert(import_text(count, skipped, true) == Some(a + b + w));
    if skipped > 0 {
        assert((a + b).last() == b.last());
    } else {
        assert(a + b =~= a);
    }
}

} // verus!
