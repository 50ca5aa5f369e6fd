//! Release checks: reading the latest tag out of the release JSON, parsing
//! `MAJOR.MINOR.PATCH` versions, and deciding whether an update is on offer.
use vstd::prelude::*;
use crate::text::{
    chars_of, copy_range, find_seq, find_seq_exec, is_ws, lemma_find_seq, parse_uint,
    parse_unsigned, push_str, split_char, split_on, string_of, trim, trimmed, utf8_len,
    utf8_len_capped, views,
};

verus! {

/// The version of this build.
pub const CURRENT: &'static str = "1.6.2";

/// A detected update: the version running vs. the latest published one.
pub struct UpdateInfo {
    pub current: String,
    pub latest: String,
}

// ---------------------------------------------------------------------------
// Reading a string field out of the release JSON
// ---------------------------------------------------------------------------

/// A whitespace character of the ASCII range (what a byte-wise
/// `is_whitespace` skip passes over in UTF-8 text).
pub open spec fn ascii_ws(c: char) -> bool {
    (c as u32) < 0x80 && is_ws(c)
}

/// The first index from `i` on that is not ASCII whitespace.
pub open spec fn skip_ws(s: Seq<char>, i: int) -> int
    decreases s.len() - i,
{
    if 0 <= i < s.len() && ascii_ws(s[i]) {
        skip_ws(s, i + 1)
    } else {
        i
    }
}

/// The first index from `i` on that holds `"` or `\`, or `s.len()`.
pub open spec fn scan_plain(s: Seq<char>, i: int) -> int
    decreases s.len() - i,
{
    if 0 <= i < s.len() && s[i] != '"' && s[i] != '\\' {
        scan_plain(s, i + 1)
    } else {
        i
    }
}

/// The value of the first `"key"` in `json` when it is followed (after
/// optional ASCII whitespace) by `:` and a string without escapes, which
/// is non-empty and at most 32 bytes long (an unterminated string runs to
/// the end of the text).
pub open spec fn json_string(json: Seq<char>, key: Seq<char>) -> Option<Seq<char>> {
    let needle = seq!['"'] + key + seq!['"'];
    match find_seq(json, needle) {
        None => None,
        Some(p) => {
            let i1 = skip_ws(json, p + needle.len());
            if i1 >= json.len() || json[i1] != ':' {
                None
            } else {
                let i2 = skip_ws(json, i1 + 1);
                if i2 >= json.len() || json[i2] != '"' {
                    None
                } else {
                    let e = scan_plain(json, i2 + 1);
                    if e < json.len() && json[e] == '\\' {
                        None
                    } else {
                        let v = json.subrange(i2 + 1, e);
                        if v.len() == 0 || utf8_len(v) > 32 {
                            None
                        } else {
                            Some(v)
                        }
                    }
                }
            }
        },
    }
}

fn skip_ws_exec(s: &[char], i: usize) -> (r: usize)
    requires
        i <= s@.len(),
    ensures
        r as int == skip_ws(s@, i as int),
        r <= s@.len(),
{
    let mut k = i;
    while k < s.len() && (s[k] as u32) < 0x80 && crate::text::is_whitespace(s[k])
        invariant
            i <= k <= s@.len(),
            skip_ws(s@, i as int) == skip_ws(s@, k as int),
        decreases s@.len() - k,
    {
        k += 1;
    }
    k
}

fn scan_plain_exec(s: &[char], i: usize) -> (r: usize)
    requires
        i <= s@.len(),
    ensures
        r as int == scan_plain(s@, i as int),
        i <= r <= s@.len(),
{
    let mut k = i;
    while k < s.len() && s[k] != '"' && s[k] != '\\'
        invariant
            i <= k <= s@.len(),
            scan_plain(s@, i as int) == scan_plain(s@, k as int),
        decreases s@.len() - k,
    {
        k += 1;
    }
    k
}

/// Minimal, dependency-free extraction of a top-level JSON string field
/// `"key":"value"`. Sufficient for tag_name (a flat ASCII value). Handles
/// surrounding whitespace; refuses values containing escapes.
pub fn extract_json_string(json: &str, key: &str) -> (r: Option<String>)
    ensures
        r matches Some(v) ==> json_string(json@, key@) == Some(v@),
        r is None ==> json_string(json@, key@) is None,
{
    let js = chars_of(json);
    let kc = chars_of(key);
    let mut needle: Vec<char> = Vec::new();
    needle.push('"');
    let mut k: usize = 0;
    while k < kc.len()
        invariant
            k <= kc@.len(),
            needle@ =~= seq!['"'] + kc@.subrange(0, k as int),
        decreases kc@.len() - k,
    {
        needle.push(kc[k]);
        k += 1;
    }
    needle.push('"');
    assert(kc@.subrange(0, kc@.len() as int) =~= kc@);
    assert(needle@ =~= seq!['"'] + key@ + seq!['"']);
    let p = match find_seq_exec(js.as_slice(), needle.as_slice()) {
        None => {
            return None;
        },
        Some(p) => p,
    };
    proof {
        lemma_find_seq(js@, needle@);
    }
    let jl = js.len();
    assert(p + needle@.len() <= jl);
    let i1 = skip_ws_exec(js.as_slice(), p + needle.len());
    if i1 >= js.len() || js[i1] != ':' {
        return None;
    }
    let i2 = skip_ws_exec(js.as_slice(), i1 + 1);
    if i2 >= js.len() || js[i2] != '"' {
        return None;
    }
    let e = scan_plain_exec(js.as_slice(), i2 + 1);
    if e < js.len() && js[e] == '\\' {
        return None;
    }
    let v = copy_range(js.as_slice(), i2 + 1, e);
    if v.len() == 0 {
        return None;
    }
    let n = utf8_len_capped(v.as_slice(), 32);
    if n > 32 {
        return None;
    }
    Some(string_of(v.as_slice()))
}

// ---------------------------------------------------------------------------
// Versions
// ---------------------------------------------------------------------------

/// `s` without its leading `v` characters (`trim_start_matches('v')`).
pub open spec fn strip_v(s: Seq<char>) -> Seq<char>
    decreases s.len(),
{
    if s.len() > 0 && s[0] == 'v' {
        strip_v(s.drop_first())
    } else {
        s
    }
}

/// The largest value of one version component.
const PART_MAX: u64 = 0xffff_ffff_ffff_ffff;

/// A strict `MAJOR.MINOR.PATCH` triple (after trimming and dropping leading
/// `v`s): exactly three `.`-separated parts, each a `u64`.
pub open spec fn version_of(v: Seq<char>) -> Option<(nat, nat, nat)> {
    let ps = split_on(strip_v(trim(v)), '.');
    if ps.len() == 3 && parse_uint(ps[0], 0xffff_ffff_ffff_ffff) is Some && parse_uint(
        ps[1],
        0xffff_ffff_ffff_ffff,
    ) is Some && parse_uint(ps[2], 0xffff_ffff_ffff_ffff) is Some {
        Some(
            (
                parse_uint(ps[0], 0xffff_ffff_ffff_ffff).unwrap(),
                parse_uint(ps[1], 0xffff_ffff_ffff_ffff).unwrap(),
                parse_uint(ps[2], 0xffff_ffff_ffff_ffff).unwrap(),
            ),
        )
    } else {
        None
    }
}

/// Lexicographic order on version triples.
pub open spec fn version_gt(a: (nat, nat, nat), b: (nat, nat, nat)) -> bool {
    a.0 > b.0 || (a.0 == b.0 && (a.1 > b.1 || (a.1 == b.1 && a.2 > b.2)))
}

fn strip_v_exec(s: &[char]) -> (r: Vec<char>)
    ensures
        r@ == strip_v(s@),
{
    let mut i: usize = 0;
    assert(s@.subrange(0, s@.len() as int) =~= s@);
    while i < s.len() && s[i] == 'v'
        invariant
            i <= s@.len(),
            strip_v(s@) == strip_v(s@.subrange(i as int, s@.len() as int)),
        decreases s@.len() - i,
    {
        assert(s@.subrange(i as int, s@.len() as int).drop_first() =~= s@.subrange(i + 1, s@.len() as int));
        i += 1;
    }
    copy_range(s, i, s.len())
}

/// Parse a strict `MAJOR.MINOR.PATCH` triple (release tags are validated
/// against `^v[0-9]+\.[0-9]+\.[0-9]+$` when published, so this is exact).
pub fn parse(v: &str) -> (r: Option<(u64, u64, u64)>)
    ensures
        r matches Some(t) ==> version_of(v@) == Some((t.0 as nat, t.1 as nat, t.2 as nat)),
        r is None ==> version_of(v@) is None,
{
    let vc = chars_of(v);
    let t = trimmed(vc.as_slice());
    let sv = strip_v_exec(t.as_slice());
    let ps = split_char(sv.as_slice(), '.');
    assert(views(ps@) == split_on(strip_v(trim(v@)), '.'));
    if ps.len() != 3 {
        return None;
    }
    assert(views(ps@)[0] == ps@[0]@ && views(ps@)[1] == ps@[1]@ && views(ps@)[2] == ps@[2]@);
    let a = match parse_unsigned(ps[0].as_slice(), PART_MAX) {
        Some(x) => x,
        None => {
            return None;
        },
    };
    let b = match parse_unsigned(ps[1].as_slice(), PART_MAX) {
        Some(x) => x,
        None => {
            return None;
        },
    };
    let c = match parse_unsigned(ps[2].as_slice(), PART_MAX) {
        Some(x) => x,
        None => {
            return None;
        },
    };
    Some((a, b, c))
}

/// What `is_newer` answers for `remote`: whether it is strictly newer than
/// the running version, or nothing when either does not parse.
pub open spec fn newer_spec(remote: Seq<char>) -> Option<bool> {
    match (version_of(remote), version_of(CURRENT@)) {
        (Some(r), Some(c)) => Some(version_gt(r, c)),
        _ => None,
    }
}

/// `Some(true)` iff `remote` is strictly newer than the compiled-in version.
/// `None` if either side is unparseable (never offers an update then).
pub fn is_newer(remote: &str) -> (r: Option<bool>)
    ensures
        r == newer_spec(remote@),
{
    let r = match parse(remote) {
        Some(x) => x,
        None => {
            return None;
        },
    };
    let c = match parse(CURRENT) {
        Some(x) => x,
        None => {
            return None;
        },
    };
    Some(r.0 > c.0 || (r.0 == c.0 && (r.1 > c.1 || (r.1 == c.1 && r.2 > c.2))))
}

/// Whether an update is on offer for the latest published version `latest`:
/// only when it is strictly newer than the running one.
pub fn check(latest: String) -> (r: Option<UpdateInfo>)
    ensures
        newer_spec(latest@) == Some(true) ==> (r matches Some(info) && info.current@ == CURRENT@
            && info.latest@ == latest@),
        newer_spec(latest@) != Some(true) ==> r is None,
{
    match is_newer(latest.as_str()) {
        Some(true) => Some(UpdateInfo { current: string_of(chars_of(CURRENT).as_slice()), latest }),
        _ => None,
    }
}

/// What `tag_from_json` gives for the release JSON `text`: the `tag_name`
/// value without its leading `v`s, or the error message.
pub open spec fn tag_spec(text: Seq<char>) -> Result<Seq<char>, Seq<char>> {
    match json_string(text, "tag_name"@) {
        Some(t) => Ok(strip_v(t)),
        None => Err("no tag_name in release JSON"@),
    }
}

/// The latest published tag in the release JSON, e.g. "1.8.0" (leading `v`
/// stripped).
pub fn tag_from_json(text: &str) -> (r: Result<String, String>)
    ensures
        r matches Ok(t) ==> tag_spec(text@) == Ok::<Seq<char>, Seq<char>>(t@),
        r matches Err(e) ==> tag_spec(text@) == Err::<Seq<char>, Seq<char>>(e@),
{
    match extract_json_string(text, "tag_name") {
        Some(t) => {
            let tc = chars_of(t.as_str());
            let sv = strip_v_exec(tc.as_slice());
            Ok(string_of(sv.as_slice()))
        },
        None => Err(string_of(chars_of("no tag_name in release JSON").as_slice())),
    }
}

/// What `String::from_utf8_lossy` makes of `bytes`.
pub uninterp spec fn utf8_lossy(bytes: Seq<u8>) -> Seq<char>;

/// `String::from_utf8_lossy(bytes)`, owned. The contract names the result and,
/// as the std documentation says, states that valid UTF-8 is decoded as is;
/// what replaces invalid sequences (U+FFFD) is left unsaid.
#[verifier::external_body]
fn text_of_bytes(bytes: &[u8]) -> (r: String)
    ensures
        r@ == utf8_lossy(bytes@),
        vstd::utf8::valid_utf8(bytes@) ==> r@ == vstd::utf8::decode_utf8(bytes@),
{
    String::from_utf8_lossy(bytes).into_owned()
}

/// Latest published tag, e.g. "1.8.0" (leading 'v' stripped), from the body
/// of the GitHub "latest release" response.
pub fn latest_tag(body: &[u8]) -> (r: Result<String, String>)
    ensures
        r matches Ok(t) ==> tag_spec(utf8_lossy(body@)) == Ok::<Seq<char>, Seq<char>>(t@),
        r matches Err(e) ==> tag_spec(utf8_lossy(body@)) == Err::<Seq<char>, Seq<char>>(e@),
{
    let text = text_of_bytes(body);
    tag_from_json(text.as_str())
}

/// The running version parses (as 1.6.2).
pub proof fn lemma_current_version()
    ensures
        version_of(CURRENT@) == Some((1nat, 6nat, 2nat)),
{
    reveal_strlit("1.6.2");
    let c = CURRENT@;
    assert(c == "1.6.2"@);
    assert(c =~= seq!['1', '.', '6', '.', '2']);
    lemma_split_version(c);
}

proof fn lemma_split_version(c: Seq<char>)
    requires
        c == seq!['1', '.', '6', '.', '2'],
    ensures
        version_of(c) == Some((1nat, 6nat, 2nat)),
{
    crate::text::lemma_trim_noop(c);
    assert(strip_v(c) == c);
    let ps = split_on(c, '.');
    reveal_with_fuel(crate::text::split_acc, 6);
    assert(c.drop_last() =~= seq!['1', '.', '6', '.']);
    assert(c.drop_last().drop_last() =~= seq!['1', '.', '6']);
    assert(c.drop_last().drop_last().drop_last() =~= seq!['1', '.']);
    assert(c.drop_last().drop_last().drop_last().drop_last() =~= seq!['1']);
    assert(seq!['1'].drop_last() =~= Seq::<char>::empty());
    assert(ps =~= seq![seq!['1'], seq!['6'], seq!['2']]);
    lemma_one_digit('1');
    lemma_one_digit('6');
    lemma_one_digit('2');
}

proof fn lemma_one_digit(d: char)
    requires
        '0' <= d <= '9',
    ensures
        parse_uint(seq![d], 0xffff_ffff_ffff_ffff) == Some(((d as u32) - ('0' as u32)) as nat),
{
    assert(seq![d].drop_last() =~= Seq::<char>::empty());
    assert(crate::text::digits_value(seq![d]) == crate::text::digits_value(seq![d].drop_last()) * 10
        + crate::text::digit_val(d));
}

/// The running version is never newer than itself, so a release of the same
/// version is never offered as an update.
pub proof fn law_current_not_newer()
    ensures
        newer_spec(CURRENT@) == Some(false),
{
    lemma_current_version();
}

/// Of two parseable versions that differ, exactly one is newer than the
/// other; neither is newer than itself.
pub proof fn law_version_order(a: (nat, nat, nat), b: (nat, nat, nat))
    ensures
        !version_gt(a, a),
        a != b ==> (version_gt(a, b) <==> !version_gt(b, a)),
{
}

// ---------------------------------------------------------------------------
// Release assets and installing
// ---------------------------------------------------------------------------

/// The minisign public key that release checksums are signed with; the
/// update trusts no other key.
pub const MINISIGN_PUBLIC_KEY: &'static str = "RWSrokrj4nWGDhUf409+6yXuqPfF7WQuGtSk/PdsnTWKwfOpb3Hv4DxG";

/// The GitHub API address of the latest release.
pub const LATEST_RELEASE_URL: &'static str = "https://api.github.com/repos/JamilleJung/wireguard-gui/releases/latest";

/// The architecture token of the release tarballs: `aarch64` on 64-bit ARM,
/// `x86_64` otherwise.
pub fn arch_token(aarch64: bool) -> (r: &'static str)
    ensures
        r@ == (if aarch64 {
            "aarch64"@
        } else {
            "x86_64"@
        }),
{
    if aarch64 {
        "aarch64"
    } else {
        "x86_64"
    }
}

/// The directory the release tarball unpacks to: `wireguard-gui-<version>-<arch>-linux`.
pub open spec fn release_dir_name(latest: Seq<char>, arch: Seq<char>) -> Seq<char> {
    "wireguard-gui-"@ + latest + "-"@ + arch + "-linux"@
}

/// The release tarball's file name.
pub open spec fn tarball_name(latest: Seq<char>, arch: Seq<char>) -> Seq<char> {
    release_dir_name(latest, arch) + ".tar.gz"@
}

/// Where the assets of release `latest` are downloaded from.
pub open spec fn release_base(latest: Seq<char>) -> Seq<char> {
    "https://github.com/JamilleJung/wireguard-gui/releases/download/v"@ + latest
}

/// The names and download address of a release's assets.
pub struct ReleaseAssets {
    /// The tarball's file name.
    pub tarball: String,
    /// The directory the tarball unpacks to.
    pub dir: String,
    /// The address the tarball, `SHA256SUMS` and its signature are under.
    pub base_url: String,
}

/// The asset names of release `latest` for `arch`.
pub fn release_assets(latest: &str, arch: &str) -> (r: ReleaseAssets)
    ensures
        r.dir@ == release_dir_name(latest@, arch@),
        r.tarball@ == tarball_name(latest@, arch@),
        r.base_url@ == release_base(latest@),
{
    let mut dir = String::new();
    push_str(&mut dir, "wireguard-gui-");
    push_str(&mut dir, latest);
    push_str(&mut dir, "-");
    push_str(&mut dir, arch);
    push_str(&mut dir, "-linux");
    let mut tarball = string_of(chars_of(dir.as_str()).as_slice());
    push_str(&mut tarball, ".tar.gz");
    let mut base_url = String::new();
    push_str(&mut base_url, "https://github.com/JamilleJung/wireguard-gui/releases/download/v");
    push_str(&mut base_url, latest);
    ReleaseAssets { tarball, dir, base_url }
}

/// How the verified installer is run: directly when already root, through
/// `pkexec` (a graphical password prompt) when it is there, else not at all.
pub enum InstallRoute {
    Direct,
    Pkexec,
}

pub open spec fn install_route_for(is_root: bool, has_pkexec: bool) -> Result<InstallRoute, Seq<char>> {
    if is_root {
        Ok(InstallRoute::Direct)
    } else if has_pkexec {
        Ok(InstallRoute::Pkexec)
    } else {
        Err("cannot escalate privileges automatically \u{2014} run install.sh manually to finish the update"@)
    }
}

/// Decides how the installer runs (see [`install_route_for`]).
pub fn install_route(is_root: bool, has_pkexec: bool) -> (r: Result<InstallRoute, String>)
    ensures
        match install_route_for(is_root, has_pkexec) {
            Ok(x) => r matches Ok(y) && x == y,
            Err(e) => r matches Err(m) && m@ == e,
        },
{
    if is_root {
        Ok(InstallRoute::Direct)
    } else if has_pkexec {
        Ok(InstallRoute::Pkexec)
    } else {
        let mut m = String::new();
        push_str(&mut m, "cannot escalate privileges automatically \u{2014} run install.sh manually to finish the update");
        Err(m)
    }
}

/// The `pkexec` command line that runs the installer as root for `user`,
/// with the prebuilt binaries.
pub open spec fn pkexec_install_command(user: Seq<char>, installer: Seq<char>) -> Seq<Seq<char>> {
    seq!["pkexec"@, "env"@, "WG_REAL_USER="@ + user, "WG_USE_PREBUILT=1"@, "bash"@, installer]
}

fn push_owned(v: &mut Vec<String>, s: String)
    ensures
        crate::text::string_views(final(v)@) == crate::text::string_views(old(v)@).push(s@),
{
    proof {
        crate::text::lemma_string_views_push(v@, s);
    }
    v.push(s);
}

/// The `pkexec` command line for the installer (see
/// [`pkexec_install_command`]).
pub fn pkexec_install_argv(user: &str, installer: &str) -> (r: Vec<String>)
    ensures
        crate::text::string_views(r@) == pkexec_install_command(user@, installer@),
{
    let mut v: Vec<String> = Vec::new();
    push_owned(&mut v, string_of(chars_of("pkexec").as_slice()));
    push_owned(&mut v, string_of(chars_of("env").as_slice()));
    let mut u = String::new();
    push_str(&mut u, "WG_REAL_USER=");
    push_str(&mut u, user);
    push_owned(&mut v, u);
    push_owned(&mut v, string_of(chars_of("WG_USE_PREBUILT=1").as_slice()));
    push_owned(&mut v, string_of(chars_of("bash").as_slice()));
    push_owned(&mut v, string_of(chars_of(installer).as_slice()));
    assert(crate::text::string_views(v@) =~= pkexec_install_command(user@, installer@));
    v
}

/// What a package-manager command is run under to install `minisign`:
/// nothing when already root, `sudo -n` when sudo is there, and no attempt
/// at all otherwise.
pub open spec fn sudo_prefix_for(is_root: bool, has_sudo: bool) -> Option<Seq<Seq<char>>> {
    if is_root {
        Some(Seq::empty())
    } else if has_sudo {
        Some(seq!["sudo"@, "-n"@])
    } else {
        None
    }
}

/// The prefix of a package-manager command (see [`sudo_prefix_for`]).
pub fn sudo_prefix(is_root: bool, has_sudo: bool) -> (r: Option<Vec<String>>)
    ensures
        match sudo_prefix_for(is_root, has_sudo) {
            Some(p) => r matches Some(v) && crate::text::string_views(v@) == p,
            None => r is None,
        },
{
    let mut v: Vec<String> = Vec::new();
    if is_root {
        assert(crate::text::string_views(v@) =~= Seq::<Seq<char>>::empty());
        Some(v)
    } else if has_sudo {
        push_owned(&mut v, string_of(chars_of("sudo").as_slice()));
        push_owned(&mut v, string_of(chars_of("-n").as_slice()));
        assert(crate::text::string_views(v@) =~= seq!["sudo"@, "-n"@]);
        Some(v)
    } else {
        None
    }
}

proof fn lemma_scan_plain(s: Seq<char>, i: int)
    requires
        0 <= i <= s.len(),
    ensures
        i <= scan_plain(s, i) <= s.len(),
        forall|j: int| i <= j < scan_plain(s, i) ==> #[trigger] s[j] != '"' && s[j] != '\\',
    decreases s.len() - i,
{
    if i < s.len() && s[i] != '"' && s[i] != '\\' {
        lemma_scan_plain(s, i + 1);
    }
}

proof fn lemma_skip_ws(s: Seq<char>, i: int)
    requires
        0 <= i,
    ensures
        i <= skip_ws(s, i),
        i <= s.len() ==> skip_ws(s, i) <= s.len(),
    decreases s.len() - i,
{
    if 0 <= i < s.len() && ascii_ws(s[i]) {
        lemma_skip_ws(s, i + 1);
    }
}

/// A value read out of the release JSON is a plain string: 1 to 32 bytes,
/// with no `"` and no `\` in it.
pub proof fn law_json_value_plain(json: Seq<char>, key: Seq<char>)
    ensures
        json_string(json, key) matches Some(v) ==> v.len() >= 1 && utf8_len(v) <= 32
            && !crate::text::contains_char(v, '"') && !crate::text::contains_char(v, '\\'),
{
    let needle = seq!['"'] + key + seq!['"'];
    lemma_find_seq(json, needle);
    match find_seq(json, needle) {
        None => {},
        Some(p) => {
            lemma_skip_ws(json, p + needle.len());
            let i1 = skip_ws(json, p + needle.len());
            if i1 < json.len() && json[i1] == ':' {
                lemma_skip_ws(json, i1 + 1);
                let i2 = skip_ws(json, i1 + 1);
                if i2 < json.len() && json[i2] == '"' {
                    lemma_scan_plain(json, i2 + 1);
                    let e = scan_plain(json, i2 + 1);
                    let v = json.subrange(i2 + 1, e);
                    assert forall|j: int| 0 <= j < v.len() implies v[j] != '"' && v[j] != '\\' by {
                        assert(v[j] == json[i2 + 1 + j]);
                    }
                }
            }
        },
    }
}

} // verus!
