//! Replacing or inserting the `PrivateKey` and `PresharedKey` lines of a
//! config's text when the editor generates new keys.
use vstd::prelude::*;
use crate::text::{
    append_chars, chars_eq, chars_of, contains_char, copy_range, find_char, find_seq, find_seq_exec,
    first_pos, join_lines, lemma_find_seq, lemma_first_pos, lines, lower_seq, lower_vec, plain_line,
    split_lines, string_of, trim_start, views,
};
use crate::ui_bridge::editor_form::{line_key, line_key_exec};

verus! {

pub open spec fn private_key_prefix() -> Seq<char> {
    seq!['P', 'r', 'i', 'v', 'a', 't', 'e', 'K', 'e', 'y', ' ', '=', ' ']
}

pub open spec fn preshared_key_prefix() -> Seq<char> {
    seq!['P', 'r', 'e', 's', 'h', 'a', 'r', 'e', 'd', 'K', 'e', 'y', ' ', '=', ' ']
}

pub open spec fn private_key_name() -> Seq<char> {
    seq!['p', 'r', 'i', 'v', 'a', 't', 'e', 'k', 'e', 'y']
}

pub open spec fn preshared_key_name() -> Seq<char> {
    seq!['p', 'r', 'e', 's', 'h', 'a', 'r', 'e', 'd', 'k', 'e', 'y']
}

pub open spec fn public_key_name() -> Seq<char> {
    seq!['p', 'u', 'b', 'l', 'i', 'c', 'k', 'e', 'y']
}

pub open spec fn interface_tag() -> Seq<char> {
    seq!['[', 'i', 'n', 't', 'e', 'r', 'f', 'a', 'c', 'e', ']']
}

pub open spec fn peer_tag() -> Seq<char> {
    seq!['[', 'p', 'e', 'e', 'r', ']']
}

pub open spec fn interface_header() -> Seq<char> {
    seq!['[', 'I', 'n', 't', 'e', 'r', 'f', 'a', 'c', 'e', ']', '\n']
}

/// A `name = value` line: its key, the trimmed text before the first `=`,
/// is exactly `name` in any letter case (so `PrivateKeyFile` is no
/// `PrivateKey` line).
pub open spec fn key_line(line: Seq<char>, name: Seq<char>) -> bool {
    line_key(line) == Some(name)
}

/// Copies the lines `ls`, each ending in `'\n'`, with the first `name`
/// line replaced by `new_line`; also says whether one was replaced.
pub open spec fn replace_run(ls: Seq<Seq<char>>, name: Seq<char>, new_line: Seq<char>) -> (Seq<char>, bool)
    decreases ls.len(),
{
    if ls.len() == 0 {
        (Seq::empty(), false)
    } else {
        let prev = replace_run(ls.drop_last(), name, new_line);
        let line = ls.last();
        if !prev.1 && key_line(line, name) {
            (prev.0 + new_line + seq!['\n'], true)
        } else {
            (prev.0 + line + seq!['\n'], prev.1)
        }
    }
}

/// Copies the lines `ls`, each ending in `'\n'`, with `new_line` inserted
/// after the first `name` line; also says whether it was inserted.
pub open spec fn insert_run(ls: Seq<Seq<char>>, name: Seq<char>, new_line: Seq<char>) -> (Seq<char>, bool)
    decreases ls.len(),
{
    if ls.len() == 0 {
        (Seq::empty(), false)
    } else {
        let prev = insert_run(ls.drop_last(), name, new_line);
        let line = ls.last();
        let base = prev.0 + line + seq!['\n'];
        if !prev.1 && key_line(line, name) {
            (base + new_line + seq!['\n'], true)
        } else {
            (base, prev.1)
        }
    }
}

/// The config with its `PrivateKey` set to `key`: the first `PrivateKey`
/// line is replaced; without one, the line goes right after the first
/// `[Interface]` header line, and without that, an `[Interface]` section
/// holding it is put in front.
pub open spec fn with_private_key(config: Seq<char>, key: Seq<char>) -> Seq<char> {
    let new_line = private_key_prefix() + key;
    let r = replace_run(lines(config), private_key_name(), new_line);
    let out = r.0;
    if r.1 {
        out
    } else {
        match find_seq(lower_seq(out), interface_tag()) {
            Some(pos) => {
                let rest = out.subrange(pos, out.len() as int);
                let f = first_pos(rest, '\n');
                let nl = if f < rest.len() { pos + f + 1 } else { out.len() as int };
                out.subrange(0, nl) + new_line + seq!['\n'] + out.subrange(nl, out.len() as int)
            },
            None => interface_header() + new_line + seq!['\n'] + out,
        }
    }
}

/// The config with its `PresharedKey` set to `key`: the first
/// `PresharedKey` line is replaced; without one, the line goes right after
/// the first `PublicKey` line, and without that, at the end.
pub open spec fn with_preshared_key(config: Seq<char>, key: Seq<char>) -> Seq<char> {
    let new_line = preshared_key_prefix() + key;
    let r = replace_run(lines(config), preshared_key_name(), new_line);
    if r.1 {
        r.0
    } else {
        let ins = insert_run(lines(r.0), public_key_name(), new_line);
        if ins.1 {
            ins.0
        } else {
            ins.0 + new_line + seq!['\n']
        }
    }
}

/// Whether `line` is a `name` line (see [`key_line`]).
fn key_line_exec(line: &[char], name: &[char]) -> (r: bool)
    ensures
        r == key_line(line@, name@),
{
    match line_key_exec(line) {
        Some(k) => chars_eq(k.as_slice(), name),
        None => false,
    }
}

fn replace_first(ls: &Vec<Vec<char>>, name: &[char], new_line: &[char]) -> (r: (Vec<char>, bool))
    ensures
        (r.0@, r.1) == replace_run(views(ls@), name@, new_line@),
{
    let mut out: Vec<char> = Vec::new();
    let mut replaced = false;
    let mut i: usize = 0;
    while i < ls.len()
        invariant
            i <= ls@.len(),
            (out@, replaced) == replace_run(views(ls@).subrange(0, i as int), name@, new_line@),
        decreases ls@.len() - i,
    {
        let ghost pre = views(ls@).subrange(0, i as int);
        assert(views(ls@).subrange(0, i + 1).drop_last() =~= pre);
        assert(views(ls@).subrange(0, i + 1).last() == ls@[i as int]@);
        let line = ls[i].as_slice();
        if !replaced && key_line_exec(line, name) {
            append_chars(&mut out, new_line);
            out.push('\n');
            replaced = true;
        } else {
            append_chars(&mut out, line);
            out.push('\n');
        }
        i += 1;
    }
    assert(views(ls@).subrange(0, ls@.len() as int) =~= views(ls@));
    (out, replaced)
}

fn insert_after_first(ls: &Vec<Vec<char>>, name: &[char], new_line: &[char]) -> (r: (Vec<char>, bool))
    ensures
        (r.0@, r.1) == insert_run(views(ls@), name@, new_line@),
{
    let mut out: Vec<char> = Vec::new();
    let mut inserted = false;
    let mut i: usize = 0;
    while i < ls.len()
        invariant
            i <= ls@.len(),
            (out@, inserted) == insert_run(views(ls@).subrange(0, i as int), name@, new_line@),
        decreases ls@.len() - i,
    {
        let ghost pre = views(ls@).subrange(0, i as int);
        assert(views(ls@).subrange(0, i + 1).drop_last() =~= pre);
        assert(views(ls@).subrange(0, i + 1).last() == ls@[i as int]@);
        let line = ls[i].as_slice();
        append_chars(&mut out, line);
        out.push('\n');
        if !inserted && key_line_exec(line, name) {
            append_chars(&mut out, new_line);
            out.push('\n');
            inserted = true;
        }
        i += 1;
    }
    assert(views(ls@).subrange(0, ls@.len() as int) =~= views(ls@));
    (out, inserted)
}

/// Replaces (or inserts) the `PrivateKey` line of `config` (see
/// [`with_private_key`]).
pub fn set_private_key(config: &str, key: &str) -> (r: String)
    ensures
        r@ == with_private_key(config@, key@),
{
    let prefix: [char; 13] = ['P', 'r', 'i', 'v', 'a', 't', 'e', 'K', 'e', 'y', ' ', '=', ' '];
    let name: [char; 10] = ['p', 'r', 'i', 'v', 'a', 't', 'e', 'k', 'e', 'y'];
    let tag: [char; 11] = ['[', 'i', 'n', 't', 'e', 'r', 'f', 'a', 'c', 'e', ']'];
    let header: [char; 12] = ['[', 'I', 'n', 't', 'e', 'r', 'f', 'a', 'c', 'e', ']', '\n'];
    assert(prefix@ == private_key_prefix());
    assert(name@ == private_key_name());
    assert(tag@ == interface_tag());
    assert(header@ == interface_header());
    let mut new_line: Vec<char> = Vec::new();
    append_chars(&mut new_line, &prefix);
    let kv = chars_of(key);
    append_chars(&mut new_line, kv.as_slice());
    let v = chars_of(config);
    let ls = split_lines(v.as_slice());
    let (out, replaced) = replace_first(&ls, &name, new_line.as_slice());
    if replaced {
        return string_of(out.as_slice());
    }
    let low = lower_vec(out.as_slice());
    let mut res: Vec<char> = Vec::new();
    match find_seq_exec(low.as_slice(), &tag) {
        Some(pos) => {
            proof {
                lemma_find_seq(lower_seq(out@), interface_tag());
            }
            let rest = copy_range(out.as_slice(), pos, out.len());
            let f = find_char(rest.as_slice(), '\n');
            let nl = if f < rest.len() { pos + f + 1 } else { out.len() };
            let head = copy_range(out.as_slice(), 0, nl);
            let tail = copy_range(out.as_slice(), nl, out.len());
            append_chars(&mut res, head.as_slice());
            append_chars(&mut res, new_line.as_slice());
            res.push('\n');
            append_chars(&mut res, tail.as_slice());
        },
        None => {
            append_chars(&mut res, &header);
            append_chars(&mut res, new_line.as_slice());
            res.push('\n');
            append_chars(&mut res, out.as_slice());
        },
    }
    string_of(res.as_slice())
}

/// Replaces (or inserts) the `PresharedKey` line of `config` (see
/// [`with_preshared_key`]).
pub fn set_psk(config: &str, key: &str) -> (r: String)
    ensures
        r@ == with_preshared_key(config@, key@),
{
    let prefix: [char; 15] = ['P', 'r', 'e', 's', 'h', 'a', 'r', 'e', 'd', 'K', 'e', 'y', ' ', '=', ' '];
    let name: [char; 12] = ['p', 'r', 'e', 's', 'h', 'a', 'r', 'e', 'd', 'k', 'e', 'y'];
    let public: [char; 9] = ['p', 'u', 'b', 'l', 'i', 'c', 'k', 'e', 'y'];
    assert(prefix@ == preshared_key_prefix());
    assert(name@ == preshared_key_name());
    assert(public@ == public_key_name());
    let mut new_line: Vec<char> = Vec::new();
    append_chars(&mut new_line, &prefix);
    let kv = chars_of(key);
    append_chars(&mut new_line, kv.as_slice());
    let v = chars_of(config);
    let ls = split_lines(v.as_slice());
    let (out, replaced) = replace_first(&ls, &name, new_line.as_slice());
    if replaced {
        return string_of(out.as_slice());
    }
    let ls2 = split_lines(out.as_slice());
    let (mut res, inserted) = insert_after_first(&ls2, &public, new_line.as_slice());
    if !inserted {
        append_chars(&mut res, new_line.as_slice());
        res.push('\n');
    }
    string_of(res.as_slice())
}

/// Whether the config has a `[Peer]` section header, in any letter case.
pub fn has_peer_section(config: &str) -> (r: bool)
    ensures
        r == find_seq(lower_seq(config@), peer_tag()) is Some,
{
    let tag: [char; 6] = ['[', 'p', 'e', 'e', 'r', ']'];
    assert(tag@ == peer_tag());
    let v = chars_of(config);
    let low = lower_vec(v.as_slice());
    find_seq_exec(low.as_slice(), &tag).is_some()
}

// ---------------------------------------------------------------------------
// Laws
// ---------------------------------------------------------------------------

/// `line` is one whole line of `text`: it stands at the start of the text or
/// right after a `'\n'`, and a `'\n'` ends it.
pub open spec fn has_line(text: Seq<char>, line: Seq<char>) -> bool {
    exists|p: int|
        0 <= p && p + line.len() + 1 <= text.len() && #[trigger] text.subrange(p, p + line.len() + 1) == line
            + seq!['\n'] && (p == 0 || text[p - 1] == '\n')
}

/// Text that is empty or ends with a line break.
pub open spec fn ends_line(text: Seq<char>) -> bool {
    text.len() == 0 || text.last() == '\n'
}

proof fn lemma_has_line_at(text: Seq<char>, line: Seq<char>, p: int)
    requires
        0 <= p,
        p + line.len() + 1 <= text.len(),
        text.subrange(p, p + line.len() + 1) == line + seq!['\n'],
        p == 0 || text[p - 1] == '\n',
    ensures
        has_line(text, line),
{
}

proof fn lemma_has_line_extend(text: Seq<char>, more: Seq<char>, line: Seq<char>)
    requires
        has_line(text, line),
    ensures
        has_line(text + more, line),
{
    let p = choose|p: int|
        0 <= p && p + line.len() + 1 <= text.len() && #[trigger] text.subrange(p, p + line.len() + 1) == line
            + seq!['\n'] && (p == 0 || text[p - 1] == '\n');
    assert((text + more).subrange(p, p + line.len() + 1) =~= text.subrange(p, p + line.len() + 1));
    if p > 0 {
        assert((text + more)[p - 1] == text[p - 1]);
    }
    lemma_has_line_at(text + more, line, p);
}

proof fn lemma_line_after(before: Seq<char>, line: Seq<char>, more: Seq<char>)
    requires
        ends_line(before),
    ensures
        has_line(before + line + seq!['\n'] + more, line),
{
    let text = before + line + seq!['\n'] + more;
    let p = before.len() as int;
    assert(text.subrange(p, p + line.len() + 1) =~= line + seq!['\n']);
    if p > 0 {
        assert(text[p - 1] == before.last());
    }
    lemma_has_line_at(text, line, p);
}

proof fn lemma_replace_run(ls: Seq<Seq<char>>, name: Seq<char>, new_line: Seq<char>)
    ensures
        ends_line(replace_run(ls, name, new_line).0),
        replace_run(ls, name, new_line).1 ==> has_line(replace_run(ls, name, new_line).0, new_line),
    decreases ls.len(),
{
    if ls.len() > 0 {
        let prev = replace_run(ls.drop_last(), name, new_line);
        lemma_replace_run(ls.drop_last(), name, new_line);
        let line = ls.last();
        if !prev.1 && key_line(line, name) {
            lemma_line_after(prev.0, new_line, Seq::empty());
            assert(prev.0 + new_line + seq!['\n'] + Seq::<char>::empty() =~= prev.0 + new_line + seq!['\n']);
        } else if prev.1 {
            lemma_has_line_extend(prev.0, line + seq!['\n'], new_line);
            assert(prev.0 + (line + seq!['\n']) =~= prev.0 + line + seq!['\n']);
        }
    }
}

proof fn lemma_insert_run(ls: Seq<Seq<char>>, name: Seq<char>, new_line: Seq<char>)
    ensures
        ends_line(insert_run(ls, name, new_line).0),
        insert_run(ls, name, new_line).1 ==> has_line(insert_run(ls, name, new_line).0, new_line),
    decreases ls.len(),
{
    if ls.len() > 0 {
        let prev = insert_run(ls.drop_last(), name, new_line);
        lemma_insert_run(ls.drop_last(), name, new_line);
        let line = ls.last();
        let base = prev.0 + line + seq!['\n'];
        if !prev.1 && key_line(line, name) {
            lemma_line_after(base, new_line, Seq::empty());
            assert(base + new_line + seq!['\n'] + Seq::<char>::empty() =~= base + new_line + seq!['\n']);
        } else if prev.1 {
            lemma_has_line_extend(prev.0, line + seq!['\n'], new_line);
            assert(prev.0 + (line + seq!['\n']) =~= base);
        }
    }
}

/// Setting the private key always leaves the config with the whole line
/// `PrivateKey = <key>`, whether a line was replaced or inserted.
pub proof fn law_private_key_line(config: Seq<char>, key: Seq<char>)
    ensures
        has_line(with_private_key(config, key), private_key_prefix() + key),
{
    let new_line = private_key_prefix() + key;
    let r = replace_run(lines(config), private_key_name(), new_line);
    lemma_replace_run(lines(config), private_key_name(), new_line);
    let out = r.0;
    if !r.1 {
        match find_seq(lower_seq(out), interface_tag()) {
            Some(pos) => {
                lemma_find_seq(lower_seq(out), interface_tag());
                let rest = out.subrange(pos, out.len() as int);
                lemma_first_pos(rest, '\n');
                let f = first_pos(rest, '\n');
                let nl = if f < rest.len() { pos + f + 1 } else { out.len() as int };
                let head = out.subrange(0, nl);
                assert(ends_line(head)) by {
                    if f < rest.len() {
                        assert(head.last() == rest[f]);
                    } else if out.len() > 0 {
                        assert(head =~= out);
                    }
                }
                lemma_line_after(head, new_line, out.subrange(nl, out.len() as int));
            },
            None => {
                lemma_line_after(interface_header(), new_line, out);
            },
        }
    }
}

/// Setting the preshared key always leaves the config with the whole line
/// `PresharedKey = <key>`, whether a line was replaced or inserted.
pub proof fn law_preshared_key_line(config: Seq<char>, key: Seq<char>)
    ensures
        has_line(with_preshared_key(config, key), preshared_key_prefix() + key),
{
    let new_line = preshared_key_prefix() + key;
    let r = replace_run(lines(config), preshared_key_name(), new_line);
    lemma_replace_run(lines(config), preshared_key_name(), new_line);
    if !r.1 {
        let ins = insert_run(lines(r.0), public_key_name(), new_line);
        lemma_insert_run(lines(r.0), public_key_name(), new_line);
        if !ins.1 {
            lemma_line_after(ins.0, new_line, Seq::empty());
            assert(ins.0 + new_line + seq!['\n'] + Seq::<char>::empty() =~= ins.0 + new_line + seq!['\n']);
        }
    }
}

// ---------------------------------------------------------------------------
// Setting a key twice
// ---------------------------------------------------------------------------

/// Index of the first line of `ls` that `p` holds of, or `ls.len()`.
pub open spec fn first_where(ls: Seq<Seq<char>>, p: spec_fn(Seq<char>) -> bool) -> int
    decreases ls.len(),
{
    if ls.len() == 0 {
        0
    } else {
        let f = first_where(ls.drop_last(), p);
        if f < ls.len() - 1 {
            f
        } else if p(ls.last()) {
            ls.len() - 1
        } else {
            ls.len() as int
        }
    }
}

/// The lines that are `name = value` lines.
pub open spec fn key_line_of(name: Seq<char>) -> spec_fn(Seq<char>) -> bool {
    |l: Seq<char>| key_line(l, name)
}

proof fn lemma_first_where(ls: Seq<Seq<char>>, p: spec_fn(Seq<char>) -> bool)
    ensures
        0 <= first_where(ls, p) <= ls.len(),
        forall|i: int| 0 <= i < first_where(ls, p) ==> !p(#[trigger] ls[i]),
        first_where(ls, p) < ls.len() ==> p(ls[first_where(ls, p)]),
    decreases ls.len(),
{
    if ls.len() > 0 {
        let pre = ls.drop_last();
        lemma_first_where(pre, p);
        assert forall|i: int| 0 <= i < first_where(ls, p) implies !p(#[trigger] ls[i]) by {
            if i < pre.len() {
                assert(ls[i] == pre[i]);
            }
        }
    }
}

proof fn lemma_first_where_at(ls: Seq<Seq<char>>, p: spec_fn(Seq<char>) -> bool, j: int)
    requires
        0 <= j <= ls.len(),
        forall|i: int| 0 <= i < j ==> !p(#[trigger] ls[i]),
        j < ls.len() ==> p(ls[j]),
    ensures
        first_where(ls, p) == j,
{
    lemma_first_where(ls, p);
    let f = first_where(ls, p);
    if f < j {
        assert(p(ls[f]));
    }
    if f > j {
        assert(!p(ls[j]));
    }
}

/// What `replace_run` gives: the first `name` line replaced, or the lines
/// copied as they are when there is none.
proof fn lemma_replace_shape(ls: Seq<Seq<char>>, name: Seq<char>, new_line: Seq<char>)
    ensures
        ({
            let j = first_where(ls, key_line_of(name));
            replace_run(ls, name, new_line) == if j < ls.len() {
                (join_lines(ls.update(j, new_line)), true)
            } else {
                (join_lines(ls), false)
            }
        }),
    decreases ls.len(),
{
    let kp = key_line_of(name);
    if ls.len() > 0 {
        let pre = ls.drop_last();
        let x = ls.last();
        lemma_replace_shape(pre, name, new_line);
        lemma_first_where(pre, kp);
        let f = first_where(pre, kp);
        if f < pre.len() {
            assert(ls.update(f, new_line).drop_last() =~= pre.update(f, new_line));
            assert(ls.update(f, new_line).last() == x);
        } else if kp(x) {
            assert(ls.update(pre.len() as int, new_line).drop_last() =~= pre);
        } else {
            assert(ls.drop_last() == pre);
        }
    } else {
        assert(join_lines(ls) =~= Seq::<char>::empty());
    }
}

/// A `'\n'` of joined lines ends one of them.
proof fn lemma_join_boundary(ls: Seq<Seq<char>>, q: int)
    requires
        forall|i: int| 0 <= i < ls.len() ==> !contains_char(#[trigger] ls[i], '\n'),
        0 <= q < join_lines(ls).len(),
        join_lines(ls)[q] == '\n',
    ensures
        exists|m: int| 1 <= m <= ls.len() && #[trigger] join_lines(ls.subrange(0, m)).len() == q + 1,
    decreases ls.len(),
{
    let pre = ls.drop_last();
    let x = ls.last();
    let jp = join_lines(pre);
    assert(join_lines(ls) == jp + x + seq!['\n']);
    assert(ls.subrange(0, ls.len() as int) =~= ls);
    if q == join_lines(ls).len() - 1 {
        assert(join_lines(ls.subrange(0, ls.len() as int)).len() == q + 1);
    } else if q >= jp.len() {
        assert(x[q - jp.len()] == '\n');
        assert(!contains_char(ls[ls.len() - 1], '\n'));
    } else {
        assert forall|i: int| 0 <= i < pre.len() implies !contains_char(#[trigger] pre[i], '\n') by {
            assert(pre[i] == ls[i]);
        }
        assert(jp[q] == join_lines(ls)[q]);
        lemma_join_boundary(pre, q);
        let m = choose|m: int| 1 <= m <= pre.len() && #[trigger] join_lines(pre.subrange(0, m)).len() == q + 1;
        assert(pre.subrange(0, m) =~= ls.subrange(0, m));
    }
}

/// Splits joined lines at a line boundary.
proof fn lemma_join_at(ls: Seq<Seq<char>>, m: int)
    requires
        0 <= m <= ls.len(),
    ensures
        join_lines(ls) == join_lines(ls.subrange(0, m)) + join_lines(ls.subrange(m, ls.len() as int)),
{
    assert(ls.subrange(0, m) + ls.subrange(m, ls.len() as int) =~= ls);
    crate::text::lemma_join_append(ls.subrange(0, m), ls.subrange(m, ls.len() as int));
}

/// The key of a `word = value` line is the word, lower-cased.
proof fn lemma_key_of_entry(word: Seq<char>, value: Seq<char>)
    requires
        word.len() > 0,
        forall|i: int| 0 <= i < word.len() ==> #[trigger] word[i] != '=' && !crate::text::is_ws(word[i]),
    ensures
        line_key(word + seq![' ', '=', ' '] + value) == Some(lower_seq(word)),
{
    let line = word + seq![' ', '=', ' '] + value;
    let n = word.len() as int;
    lemma_first_pos(line, '=');
    assert(line[n + 1] == '=');
    assert forall|j: int| 0 <= j <= n implies line[j] != '=' by {
        if j < n {
            assert(line[j] == word[j]);
        }
    }
    let f = first_pos(line, '=');
    if f < n + 1 {
        assert(line[f] == '=');
    }
    assert(f == n + 1);
    let k = line.subrange(0, n + 1);
    assert(k =~= word.push(' '));
    assert(!crate::text::is_ws(k[0]));
    assert(trim_start(k) == k);
    assert(crate::text::is_ws(k.last()));
    assert(k.drop_last() =~= word);
    assert(crate::text::trim_end(k) == crate::text::trim_end(word));
    assert(!crate::text::is_ws(word.last()));
    assert(crate::text::trim_end(word) == word);
    assert(crate::text::trim(k) == word);
}

proof fn lemma_new_line_is_key(key: Seq<char>)
    ensures
        key_line(private_key_prefix() + key, private_key_name()),
{
    let w = seq!['P', 'r', 'i', 'v', 'a', 't', 'e', 'K', 'e', 'y'];
    assert(private_key_prefix() =~= w + seq![' ', '=', ' ']);
    lemma_key_of_entry(w, key);
    assert(lower_seq(w) =~= private_key_name());
}

proof fn lemma_header_not_key()
    ensures
        !key_line(seq!['[', 'I', 'n', 't', 'e', 'r', 'f', 'a', 'c', 'e', ']'], private_key_name()),
{
    let h = seq!['[', 'I', 'n', 't', 'e', 'r', 'f', 'a', 'c', 'e', ']'];
    lemma_first_pos(h, '=');
    let f = first_pos(h, '=');
    if f < h.len() {
        assert(h[f] == '=');
    }
}

/// Setting the same private key again changes nothing more, for a config
/// whose lines read back as written (none ends in a stray `'\r'`) and a key
/// that fits on one such line.
pub proof fn law_private_key_idempotent(config: Seq<char>, key: Seq<char>)
    requires
        forall|i: int| 0 <= i < lines(config).len() ==> plain_line(#[trigger] lines(config)[i]),
        plain_line(private_key_prefix() + key),
    ensures
        with_private_key(with_private_key(config, key), key) == with_private_key(config, key),
{
    let name = private_key_name();
    let nl = private_key_prefix() + key;
    let kp = key_line_of(name);
    let ls = lines(config);
    lemma_new_line_is_key(key);
    lemma_replace_shape(ls, name, nl);
    lemma_first_where(ls, kp);
    let j = first_where(ls, kp);
    // The lines the first call writes, and the text it gives.
    let (written, at): (Seq<Seq<char>>, int) = if j < ls.len() {
        (ls.update(j, nl), j)
    } else {
        let out = join_lines(ls);
        match find_seq(lower_seq(out), interface_tag()) {
            Some(pos) => {
                let rest = out.subrange(pos, out.len() as int);
                let f = first_pos(rest, '\n');
                if f < rest.len() {
                    let m = choose|m: int| 1 <= m <= ls.len() && #[trigger] join_lines(ls.subrange(0, m)).len() == pos + f + 1;
                    (ls.subrange(0, m).push(nl) + ls.subrange(m, ls.len() as int), m)
                } else {
                    (ls.push(nl), ls.len() as int)
                }
            },
            None => (seq![seq!['[', 'I', 'n', 't', 'e', 'r', 'f', 'a', 'c', 'e', ']'], nl] + ls, 1),
        }
    };
    let first = with_private_key(config, key);
    if j < ls.len() {
        assert(first == join_lines(written));
    } else {
        let out = join_lines(ls);
        assert(replace_run(ls, name, nl) == (out, false));
        match find_seq(lower_seq(out), interface_tag()) {
            Some(pos) => {
                lemma_find_seq(lower_seq(out), interface_tag());
                let rest = out.subrange(pos, out.len() as int);
                lemma_first_pos(rest, '\n');
                let f = first_pos(rest, '\n');
                if f < rest.len() {
                    assert(out[pos + f] == rest[f]);
                    assert forall|i: int| 0 <= i < ls.len() implies !contains_char(#[trigger] ls[i], '\n') by {
                        assert(plain_line(ls[i]));
                    }
                    lemma_join_boundary(ls, pos + f);
                    let m = choose|m: int| 1 <= m <= ls.len() && #[trigger] join_lines(ls.subrange(0, m)).len() == pos + f + 1;
                    lemma_join_at(ls, m);
                    assert(out.subrange(0, pos + f + 1) =~= join_lines(ls.subrange(0, m)));
                    assert(out.subrange(pos + f + 1, out.len() as int) =~= join_lines(ls.subrange(m, ls.len() as int)));
                    crate::text::lemma_join_append(ls.subrange(0, m).push(nl), ls.subrange(m, ls.len() as int));
                    let head = ls.subrange(0, m);
                    assert(head.push(nl).drop_last() =~= head);
                    assert(head.push(nl).last() == nl);
                    assert(join_lines(head.push(nl)) == join_lines(head.push(nl).drop_last()) + head.push(nl).last() + seq!['\n']);
                    assert(join_lines(head.push(nl)) =~= join_lines(head) + nl + seq!['\n']);
                    assert(first =~= join_lines(written));
                } else {
                    assert(out.subrange(0, out.len() as int) =~= out);
                    assert(out.subrange(out.len() as int, out.len() as int) =~= Seq::<char>::empty());
                    assert(ls.push(nl).drop_last() =~= ls);
                    assert(first =~= join_lines(written));
                }
            },
            None => {
                let h = seq!['[', 'I', 'n', 't', 'e', 'r', 'f', 'a', 'c', 'e', ']'];
                crate::text::lemma_join_append(seq![h, nl], ls);
                assert(seq![h, nl].drop_last() =~= seq![h]);
                assert(seq![h].drop_last() =~= Seq::<Seq<char>>::empty());
                assert(join_lines(Seq::<Seq<char>>::empty()) =~= Seq::<char>::empty());
                assert(join_lines(seq![h]) == join_lines(seq![h].drop_last()) + seq![h].last() + seq!['\n']);
                assert(join_lines(seq![h]) =~= h + seq!['\n']);
                assert(join_lines(seq![h, nl]) == join_lines(seq![h, nl].drop_last()) + seq![h, nl].last() + seq!['\n']);
                assert(interface_header() =~= h + seq!['\n']);
                assert(join_lines(seq![h, nl]) =~= interface_header() + nl + seq!['\n']);
                assert(first =~= join_lines(written));
            },
        }
    }
    // The written lines read back as written, and the new line is the first
    // key line among them.
    assert(0 <= at < written.len() && written[at] == nl) by {
        if j >= ls.len() {
            let out = join_lines(ls);
            match find_seq(lower_seq(out), interface_tag()) {
                Some(pos) => {
                    let rest = out.subrange(pos, out.len() as int);
                    if first_pos(rest, '\n') < rest.len() {
                        let m = at;
                        assert(written[m] == ls.subrange(0, m).push(nl)[m]);
                    }
                },
                None => {},
            }
        }
    }
    assert forall|i: int| 0 <= i < written.len() implies plain_line(#[trigger] written[i]) by {
        if i != at {
            if j < ls.len() {
                assert(written[i] == ls[i]);
            } else {
                let out = join_lines(ls);
                match find_seq(lower_seq(out), interface_tag()) {
                    Some(pos) => {
                        let rest = out.subrange(pos, out.len() as int);
                        if first_pos(rest, '\n') < rest.len() {
                            if i < at {
                                assert(written[i] == ls[i]);
                            } else {
                                assert(written[i] == ls[i - 1]);
                            }
                        } else {
                            assert(written[i] == ls[i]);
                        }
                    },
                    None => {
                        if i == 0 {
                            let h = seq!['[', 'I', 'n', 't', 'e', 'r', 'f', 'a', 'c', 'e', ']'];
                            assert(written[0] == h);
                            assert(!contains_char(h, '\n')) by {
                                if contains_char(h, '\n') {
                                    let k = choose|k: int| 0 <= k < h.len() && h[k] == '\n';
                                }
                            }
                        } else {
                            assert(written[i] == ls[i - 2]);
                        }
                    },
                }
            }
        }
    }
    assert forall|i: int| 0 <= i < at implies !kp(#[trigger] written[i]) by {
        if j < ls.len() {
            assert(written[i] == ls[i]);
        } else {
            let out = join_lines(ls);
            match find_seq(lower_seq(out), interface_tag()) {
                Some(pos) => {
                    assert(written[i] == ls[i]);
                },
                None => {
                    lemma_header_not_key();
                },
            }
        }
    }
    lemma_first_where_at(written, kp, at);
    crate::text::lemma_lines_join(written);
    lemma_replace_shape(written, name, nl);
    assert(written.update(at, nl) =~= written);
}

/// What `insert_run` gives: `new_line` after the first `name` line,
/// or the lines copied as they are when there is none.
proof fn lemma_insert_shape(ls: Seq<Seq<char>>, name: Seq<char>, new_line: Seq<char>)
    ensures
        ({
            let j = first_where(ls, key_line_of(name));
            insert_run(ls, name, new_line) == if j < ls.len() {
                (join_lines(ls.subrange(0, j + 1).push(new_line) + ls.subrange(j + 1, ls.len() as int)), true)
            } else {
                (join_lines(ls), false)
            }
        }),
    decreases ls.len(),
{
    let np = key_line_of(name);
    if ls.len() > 0 {
        let pre = ls.drop_last();
        let x = ls.last();
        lemma_insert_shape(pre, name, new_line);
        lemma_first_where(pre, np);
        let f = first_where(pre, np);
        if f < pre.len() {
            let before = pre.subrange(0, f + 1).push(new_line) + pre.subrange(f + 1, pre.len() as int);
            let now = ls.subrange(0, f + 1).push(new_line) + ls.subrange(f + 1, ls.len() as int);
            assert(now.drop_last() =~= before);
            assert(now.last() == x);
            assert(join_lines(now) == join_lines(now.drop_last()) + now.last() + seq!['\n']);
        } else if np(x) {
            let now = ls.subrange(0, ls.len() as int).push(new_line) + ls.subrange(ls.len() as int, ls.len() as int);
            assert(now =~= ls.push(new_line));
            assert(ls.push(new_line).drop_last() =~= ls);
            assert(join_lines(now) == join_lines(ls) + new_line + seq!['\n']);
        }
    } else {
        assert(join_lines(ls) =~= Seq::<char>::empty());
    }
}

proof fn lemma_psk_line_is_key(key: Seq<char>)
    ensures
        key_line(preshared_key_prefix() + key, preshared_key_name()),
{
    let w = seq!['P', 'r', 'e', 's', 'h', 'a', 'r', 'e', 'd', 'K', 'e', 'y'];
    assert(preshared_key_prefix() =~= w + seq![' ', '=', ' ']);
    lemma_key_of_entry(w, key);
    assert(lower_seq(w) =~= preshared_key_name());
}

/// Setting the same preshared key again changes nothing more, for a config
/// whose lines read back as written (none ends in a stray `'\r'`) and a key
/// that fits on one such line.
pub proof fn law_preshared_key_idempotent(config: Seq<char>, key: Seq<char>)
    requires
        forall|i: int| 0 <= i < lines(config).len() ==> plain_line(#[trigger] lines(config)[i]),
        plain_line(preshared_key_prefix() + key),
    ensures
        with_preshared_key(with_preshared_key(config, key), key) == with_preshared_key(config, key),
{
    let name = preshared_key_name();
    let nl = preshared_key_prefix() + key;
    let kp = key_line_of(name);
    let np = key_line_of(public_key_name());
    let ls = lines(config);
    lemma_psk_line_is_key(key);
    lemma_replace_shape(ls, name, nl);
    lemma_first_where(ls, kp);
    lemma_first_where(ls, np);
    let j = first_where(ls, kp);
    let k = first_where(ls, np);
    let (written, at): (Seq<Seq<char>>, int) = if j < ls.len() {
        (ls.update(j, nl), j)
    } else if k < ls.len() {
        (ls.subrange(0, k + 1).push(nl) + ls.subrange(k + 1, ls.len() as int), k + 1)
    } else {
        (ls.push(nl), ls.len() as int)
    };
    let first = with_preshared_key(config, key);
    if j >= ls.len() {
        let out = join_lines(ls);
        assert(replace_run(ls, name, nl) == (out, false));
        crate::text::lemma_lines_join(ls);
        lemma_insert_shape(ls, public_key_name(), nl);
        if k >= ls.len() {
            assert(ls.push(nl).drop_last() =~= ls);
            assert(join_lines(ls.push(nl)) == join_lines(ls) + nl + seq!['\n']);
        }
        assert(first == join_lines(written));
    }
    assert(0 <= at < written.len() && written[at] == nl) by {
        if j >= ls.len() && k < ls.len() {
            assert(written[at] == ls.subrange(0, k + 1).push(nl)[k + 1]);
        }
    }
    assert forall|i: int| 0 <= i < written.len() implies plain_line(#[trigger] written[i]) by {
        if i != at {
            if j < ls.len() {
                assert(written[i] == ls[i]);
            } else if k < ls.len() {
                if i < at {
                    assert(written[i] == ls[i]);
                } else {
                    assert(written[i] == ls[i - 1]);
                }
            } else {
                assert(written[i] == ls[i]);
            }
        }
    }
    assert forall|i: int| 0 <= i < at implies !kp(#[trigger] written[i]) by {
        assert(written[i] == ls[i]);
    }
    lemma_first_where_at(written, kp, at);
    crate::text::lemma_lines_join(written);
    lemma_replace_shape(written, name, nl);
    assert(written.update(at, nl) =~= written);
}

} // verus!
