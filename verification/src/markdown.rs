//! Display-only markdown for the Help and changelog views: inline markers
//! are dropped, links are rewritten to their label, and each line is tagged
//! with the style it is shown in.
use vstd::prelude::*;
use crate::text::{
    chars_eq, chars_of, contains_char, copy_range, find_char, find_seq, find_seq_exec, first_pos,
    has_char, has_prefix, lemma_find_seq, lemma_first_pos, lines, push_chars, split_lines,
    starts_with, string_of, trim, trim_start, trim_start_at, trimmed, utf8_len, utf8_len_capped,
    views, is_digit, join_lines, lemma_not_in_concat, lemma_not_in_part, lemma_lines_not_in,
    lemma_trim_shape, lemma_trim_start_shape,
};

verus! {

// ---------------------------------------------------------------------------
// Inline markers
// ---------------------------------------------------------------------------

/// A markdown link `[label](target)` at the start of `s`: its label and the
/// number of characters the whole link takes. The label holds no `[` and no
/// line break, and no line break comes before the closing `)`.
pub open spec fn md_link(s: Seq<char>) -> Option<(Seq<char>, int)> {
    if s.len() == 0 || s[0] != '[' {
        None
    } else {
        match find_seq(s, seq![']', '(']) {
            None => None,
            Some(close) => {
                let label = s.subrange(1, close);
                let after = s.subrange(close + 2, s.len() as int);
                let p = first_pos(after, ')');
                if contains_char(label, '[') || contains_char(label, '\n') || p >= after.len()
                    || contains_char(after.subrange(0, p), '\n') {
                    None
                } else {
                    Some((label, close + 3 + p))
                }
            }
        }
    }
}

/// Facts about a link found at the start of `s`.
pub proof fn lemma_md_link(s: Seq<char>)
    ensures
        md_link(s) matches Some((label, n)) ==> 4 <= n <= s.len() && label.len() + 3 <= n
            && label == s.subrange(1, label.len() + 1 as int),
{
    if s.len() > 0 && s[0] == '[' {
        lemma_find_seq(s, seq![']', '(']);
        match find_seq(s, seq![']', '(']) {
            None => {},
            Some(close) => {
                assert(s.subrange(close, close + 2)[0] == ']');
                assert(close != 0);
                let after = s.subrange(close + 2, s.len() as int);
                lemma_first_pos(after, ')');
            },
        }
    }
}

/// `s` with its inline markdown removed: each `*` or `` ` `` is dropped
/// together with an identical marker right after it, a well-formed link is
/// replaced by its label, and everything else (an unmatched `[` included) is
/// kept.
pub open spec fn strip_md(s: Seq<char>) -> Seq<char>
    decreases s.len(),
{
    if s.len() == 0 {
        Seq::empty()
    } else if s[0] == '*' || s[0] == '`' {
        if s.len() >= 2 && s[1] == s[0] {
            strip_md(s.subrange(2, s.len() as int))
        } else {
            strip_md(s.drop_first())
        }
    } else if s[0] == '[' {
        match md_link(s) {
            Some((label, n)) => {
                proof {
                    lemma_md_link(s);
                }
                label + strip_md(s.subrange(n, s.len() as int))
            },
            None => seq!['['] + strip_md(s.drop_first()),
        }
    } else {
        seq![s[0]] + strip_md(s.drop_first())
    }
}

/// Parses a link at position `i` of `s` (see [`md_link`]): the label and the
/// number of characters the link takes.
fn parse_md_link(s: &[char], i: usize) -> (r: Option<(Vec<char>, usize)>)
    requires
        i <= s@.len(),
    ensures
        match md_link(s@.subrange(i as int, s@.len() as int)) {
            Some((label, n)) => r matches Some((l, m)) && l@ == label && m == n,
            None => r is None,
        },
{
    let ghost t = s@.subrange(i as int, s@.len() as int);
    if i >= s.len() || s[i] != '[' {
        return None;
    }
    let rest = copy_range(s, i, s.len());
    assert(rest@ == t);
    let pat: [char; 2] = [']', '('];
    assert(pat@ == seq![']', '(']);
    let close = match find_seq_exec(rest.as_slice(), &pat) {
        None => {
            return None;
        },
        Some(c) => c,
    };
    proof {
        lemma_find_seq(t, seq![']', '(']);
    }
    let label = copy_range(rest.as_slice(), 1, close);
    if has_char(label.as_slice(), '[') || has_char(label.as_slice(), '\n') {
        return None;
    }
    let after = copy_range(rest.as_slice(), close + 2, rest.len());
    let p = find_char(after.as_slice(), ')');
    if p >= after.len() {
        return None;
    }
    let before = copy_range(after.as_slice(), 0, p);
    if has_char(before.as_slice(), '\n') {
        return None;
    }
    Some((label, close + 3 + p))
}

/// Removes the inline markdown of `s` (see [`strip_md`]).
pub fn strip_inline_md(s: &str) -> (r: String)
    ensures
        r@ == strip_md(s@),
{
    let v = chars_of(s);
    let n = v.len();
    let mut out = String::new();
    let mut i: usize = 0;
    assert(v@.subrange(0, n as int) =~= s@);
    assert(out@ + strip_md(s@) =~= strip_md(s@));
    while i < n
        invariant
            n == v@.len(),
            i <= n,
            v@ == s@,
            out@ + strip_md(v@.subrange(i as int, n as int)) == strip_md(s@),
        decreases n - i,
    {
        let ghost t = v@.subrange(i as int, n as int);
        let c = v[i];
        assert(t[0] == c);
        if c == '*' || c == '`' {
            if i + 1 < n && v[i + 1] == c {
                assert(t.subrange(2, t.len() as int) =~= v@.subrange(i + 2, n as int));
                i += 2;
            } else {
                assert(t.drop_first() =~= v@.subrange(i + 1, n as int));
                i += 1;
            }
        } else if c == '[' {
            match parse_md_link(v.as_slice(), i) {
                Some((label, m)) => {
                    proof {
                        lemma_md_link(t);
                        assert(t.subrange(m as int, t.len() as int) =~= v@.subrange(i + m, n as int));
                    }
                    push_chars(&mut out, label.as_slice());
                    assert(out@ + strip_md(v@.subrange(i + m, n as int)) =~= strip_md(s@));
                    i += m;
                },
                None => {
                    assert(t.drop_first() =~= v@.subrange(i + 1, n as int));
                    out.push('[');
                    assert(out@ + strip_md(v@.subrange(i + 1, n as int)) =~= strip_md(s@));
                    i += 1;
                },
            }
        } else {
            assert(t.drop_first() =~= v@.subrange(i + 1, n as int));
            out.push(c);
            assert(out@ + strip_md(v@.subrange(i + 1, n as int)) =~= strip_md(s@));
            i += 1;
        }
    }
    assert(v@.subrange(n as int, n as int) =~= Seq::<char>::empty());
    assert(out@ + Seq::<char>::empty() =~= out@);
    out
}

// ---------------------------------------------------------------------------
// UTF-8 lead bytes
// ---------------------------------------------------------------------------

/// How many bytes a UTF-8 character takes, read from its first byte; a byte
/// that cannot start a character counts as one.
pub open spec fn lead_byte_len(b: u8) -> nat {
    if b < 0x80 {
        1
    } else if 0xC0 <= b < 0xE0 {
        2
    } else if 0xE0 <= b < 0xF0 {
        3
    } else if 0xF0 <= b < 0xF8 {
        4
    } else {
        1
    }
}

/// Byte length of a UTF-8 character from its leading byte.
pub fn utf8_char_len(b: u8) -> (r: usize)
    ensures
        r as nat == lead_byte_len(b),
{
    assert((b >> 5u8 == 6u8) == (0xC0u8 <= b && b < 0xE0u8)) by (bit_vector);
    assert((b >> 4u8 == 14u8) == (0xE0u8 <= b && b < 0xF0u8)) by (bit_vector);
    assert((b >> 3u8 == 30u8) == (0xF0u8 <= b && b < 0xF8u8)) by (bit_vector);
    if b < 0x80 {
        1
    } else if b >> 5u8 == 6u8 {
        2
    } else if b >> 4u8 == 14u8 {
        3
    } else if b >> 3u8 == 30u8 {
        4
    } else {
        1
    }
}

// ---------------------------------------------------------------------------
// Line styles
// ---------------------------------------------------------------------------

/// The style a rendered line is shown in.
pub enum MdKind {
    Code,
    Rule,
    H1,
    H2,
    H3,
    Quote,
    Blank,
    Bullet,
    Normal,
}

impl MdKind {
    /// The tag the views style a line by.
    pub open spec fn name(self) -> Seq<char> {
        match self {
            MdKind::Code => seq!['c', 'o', 'd', 'e'],
            MdKind::Rule => seq!['r', 'u', 'l', 'e'],
            MdKind::H1 => seq!['h', '1'],
            MdKind::H2 => seq!['h', '2'],
            MdKind::H3 => seq!['h', '3'],
            MdKind::Quote => seq!['q', 'u', 'o', 't', 'e'],
            MdKind::Blank => seq!['b', 'l', 'a', 'n', 'k'],
            MdKind::Bullet => seq!['b', 'u', 'l', 'l', 'e', 't'],
            MdKind::Normal => seq!['n', 'o', 'r', 'm', 'a', 'l'],
        }
    }

    /// The tag as a `String`.
    pub fn to_text(&self) -> (r: String)
        ensures
            r@ == self.name(),
    {
        match self {
            MdKind::Code => {
                let a: [char; 4] = ['c', 'o', 'd', 'e'];
                assert(a@ == seq!['c', 'o', 'd', 'e']);
                string_of(&a)
            },
            MdKind::Rule => {
                let a: [char; 4] = ['r', 'u', 'l', 'e'];
                assert(a@ == seq!['r', 'u', 'l', 'e']);
                string_of(&a)
            },
            MdKind::H1 => {
                let a: [char; 2] = ['h', '1'];
                assert(a@ == seq!['h', '1']);
                string_of(&a)
            },
            MdKind::H2 => {
                let a: [char; 2] = ['h', '2'];
                assert(a@ == seq!['h', '2']);
                string_of(&a)
            },
            MdKind::H3 => {
                let a: [char; 2] = ['h', '3'];
                assert(a@ == seq!['h', '3']);
                string_of(&a)
            },
            MdKind::Quote => {
                let a: [char; 5] = ['q', 'u', 'o', 't', 'e'];
                assert(a@ == seq!['q', 'u', 'o', 't', 'e']);
                string_of(&a)
            },
            MdKind::Blank => {
                let a: [char; 5] = ['b', 'l', 'a', 'n', 'k'];
                assert(a@ == seq!['b', 'l', 'a', 'n', 'k']);
                string_of(&a)
            },
            MdKind::Bullet => {
                let a: [char; 6] = ['b', 'u', 'l', 'l', 'e', 't'];
                assert(a@ == seq!['b', 'u', 'l', 'l', 'e', 't']);
                string_of(&a)
            },
            MdKind::Normal => {
                let a: [char; 6] = ['n', 'o', 'r', 'm', 'a', 'l'];
                assert(a@ == seq!['n', 'o', 'r', 'm', 'a', 'l']);
                string_of(&a)
            },
        }
    }
}

/// One rendered line: its text and the tag of its style.
pub struct DocItem {
    pub text: String,
    pub kind: String,
}

pub struct DocItemView {
    pub text: Seq<char>,
    pub kind: Seq<char>,
}

impl View for DocItem {
    type V = DocItemView;

    open spec fn view(&self) -> DocItemView {
        DocItemView { text: self.text@, kind: self.kind@ }
    }
}

pub open spec fn doc(text: Seq<char>, kind: MdKind) -> DocItemView {
    DocItemView { text, kind: kind.name() }
}

pub open spec fn doc_views(v: Seq<DocItem>) -> Seq<DocItemView> {
    Seq::new(v.len(), |i: int| v[i]@)
}

/// The text after a `- ` or `* ` bullet marker, leading whitespace allowed.
pub open spec fn bullet_of(line: Seq<char>) -> Option<Seq<char>> {
    let t = trim_start(line);
    if starts_with(t, seq!['-', ' ']) || starts_with(t, seq!['*', ' ']) {
        Some(t.subrange(2, t.len() as int))
    } else {
        None
    }
}

/// A bullet indented by two bytes or more is nested: it gets a hollow
/// marker, a top-level one a filled marker.
pub open spec fn bullet_marker(line: Seq<char>) -> Seq<char> {
    let indent = line.subrange(0, line.len() - trim_start(line).len());
    if utf8_len(indent) >= 2 {
        seq![' ', ' ', '\u{25e6}', ' ']
    } else {
        seq!['\u{2022}', ' ']
    }
}

pub open spec fn is_rule(t: Seq<char>) -> bool {
    t == seq!['-', '-', '-'] || t == seq!['*', '*', '*'] || t == seq!['_', '_', '_']
}

/// A line whose trimmed text opens or closes a fenced code block.
pub open spec fn is_fence(line: Seq<char>) -> bool {
    starts_with(trim(line), seq!['`', '`', '`'])
}

/// How a line outside a code block is rendered.
pub open spec fn md_line(line: Seq<char>) -> DocItemView {
    let t = trim(line);
    if is_rule(t) {
        doc(Seq::empty(), MdKind::Rule)
    } else if starts_with(t, seq!['#', '#', '#', ' ']) {
        doc(strip_md(t.subrange(4, t.len() as int)), MdKind::H3)
    } else if starts_with(t, seq!['#', '#', ' ']) {
        doc(strip_md(t.subrange(3, t.len() as int)), MdKind::H2)
    } else if starts_with(t, seq!['#', ' ']) {
        doc(strip_md(t.subrange(2, t.len() as int)), MdKind::H1)
    } else if starts_with(t, seq!['>', ' ']) {
        doc(strip_md(t.subrange(2, t.len() as int)), MdKind::Quote)
    } else if t.len() == 0 {
        doc(Seq::empty(), MdKind::Blank)
    } else {
        match bullet_of(line) {
            Some(rest) => doc(bullet_marker(line) + strip_md(rest), MdKind::Bullet),
            None => doc(strip_md(t), MdKind::Normal),
        }
    }
}

/// Rendering state after the lines `ls`: whether a code block is open, and
/// the items so far. Fence lines toggle the block and are not rendered;
/// lines inside a block are rendered verbatim as code.
pub open spec fn md_run(ls: Seq<Seq<char>>) -> (bool, Seq<DocItemView>)
    decreases ls.len(),
{
    if ls.len() == 0 {
        (false, Seq::empty())
    } else {
        let prev = md_run(ls.drop_last());
        let line = ls.last();
        if is_fence(line) {
            (!prev.0, prev.1)
        } else if prev.0 {
            (true, prev.1.push(doc(line, MdKind::Code)))
        } else {
            (false, prev.1.push(md_line(line)))
        }
    }
}

/// The rendered items of a markdown document.
pub open spec fn md_doc(src: Seq<char>) -> Seq<DocItemView> {
    md_run(lines(src)).1
}

/// If `line` is a `- ` or `* ` bullet, the text after the marker.
fn bullet_rest(line: &[char]) -> (r: Option<Vec<char>>)
    ensures
        match bullet_of(line@) {
            Some(rest) => r matches Some(v) && v@ == rest,
            None => r is None,
        },
{
    let lo = trim_start_at(line);
    let t = copy_range(line, lo, line.len());
    let dash: [char; 2] = ['-', ' '];
    let star: [char; 2] = ['*', ' '];
    assert(dash@ == seq!['-', ' ']);
    assert(star@ == seq!['*', ' ']);
    if has_prefix(t.as_slice(), &dash) || has_prefix(t.as_slice(), &star) {
        Some(copy_range(t.as_slice(), 2, t.len()))
    } else {
        None
    }
}

/// How one line outside a code block is rendered (see [`md_line`]).
fn render_line(line: &[char]) -> (r: DocItem)
    ensures
        r@ == md_line(line@),
{
    let t = trimmed(line);
    let ts = t.as_slice();
    let r1: [char; 3] = ['-', '-', '-'];
    let r2: [char; 3] = ['*', '*', '*'];
    let r3: [char; 3] = ['_', '_', '_'];
    let h3: [char; 4] = ['#', '#', '#', ' '];
    let h2: [char; 3] = ['#', '#', ' '];
    let h1: [char; 2] = ['#', ' '];
    let q: [char; 2] = ['>', ' '];
    assert(r1@ == seq!['-', '-', '-']);
    assert(r2@ == seq!['*', '*', '*']);
    assert(r3@ == seq!['_', '_', '_']);
    assert(h3@ == seq!['#', '#', '#', ' ']);
    assert(h2@ == seq!['#', '#', ' ']);
    assert(h1@ == seq!['#', ' ']);
    assert(q@ == seq!['>', ' ']);
    let (kind, text) = if chars_eq(ts, &r1) || chars_eq(ts, &r2) || chars_eq(ts, &r3) {
        (MdKind::Rule, String::new())
    } else if has_prefix(ts, &h3) {
        (MdKind::H3, strip_inline_md(&string_of(copy_range(ts, 4, t.len()).as_slice())))
    } else if has_prefix(ts, &h2) {
        (MdKind::H2, strip_inline_md(&string_of(copy_range(ts, 3, t.len()).as_slice())))
    } else if has_prefix(ts, &h1) {
        (MdKind::H1, strip_inline_md(&string_of(copy_range(ts, 2, t.len()).as_slice())))
    } else if has_prefix(ts, &q) {
        (MdKind::Quote, strip_inline_md(&string_of(copy_range(ts, 2, t.len()).as_slice())))
    } else if t.len() == 0 {
        (MdKind::Blank, String::new())
    } else {
        match bullet_rest(line) {
            Some(rest) => {
                let lo = trim_start_at(line);
                let indent = copy_range(line, 0, lo);
                proof {
                    crate::text::lemma_trim_start_shape(line@);
                }
                let nested = utf8_len_capped(indent.as_slice(), 1) >= 2;
                let mut out = String::new();
                if nested {
                    out.push(' ');
                    out.push(' ');
                    out.push('\u{25e6}');
                    out.push(' ');
                } else {
                    out.push('\u{2022}');
                    out.push(' ');
                }
                let body = strip_inline_md(&string_of(rest.as_slice()));
                let bv = chars_of(body.as_str());
                push_chars(&mut out, bv.as_slice());
                assert(out@ == bullet_marker(line@) + strip_md(bullet_of(line@)->0));
                (MdKind::Bullet, out)
            },
            None => (MdKind::Normal, strip_inline_md(&string_of(ts))),
        }
    };
    let k = kind.to_text();
    DocItem { text, kind: k }
}

/// Renders a markdown document line by line (see [`md_doc`]).
pub fn md_items(src: &str) -> (r: Vec<DocItem>)
    ensures
        doc_views(r@) == md_doc(src@),
{
    let v = chars_of(src);
    let ls = split_lines(v.as_slice());
    let mut items: Vec<DocItem> = Vec::new();
    let mut in_code = false;
    let mut k: usize = 0;
    let fence: [char; 3] = ['`', '`', '`'];
    assert(fence@ == seq!['`', '`', '`']);
    while k < ls.len()
        invariant
            k <= ls@.len(),
            views(ls@) == lines(src@),
            fence@ == seq!['`', '`', '`'],
            (in_code, doc_views(items@)) == md_run(views(ls@).subrange(0, k as int)),
        decreases ls@.len() - k,
    {
        let ghost pre = views(ls@).subrange(0, k as int);
        assert(views(ls@).subrange(0, k + 1).drop_last() =~= pre);
        assert(views(ls@).subrange(0, k + 1).last() == ls@[k as int]@);
        let line = ls[k].as_slice();
        let t = trimmed(line);
        if has_prefix(t.as_slice(), &fence) {
            in_code = !in_code;
        } else if in_code {
            let item = DocItem { text: string_of(line), kind: MdKind::Code.to_text() };
            items.push(item);
            assert(doc_views(items@) =~= md_run(pre).1.push(doc(line@, MdKind::Code)));
        } else {
            let item = render_line(line);
            items.push(item);
            assert(doc_views(items@) =~= md_run(pre).1.push(md_line(line@)));
        }
        k += 1;
    }
    assert(views(ls@).subrange(0, ls@.len() as int) =~= views(ls@));
    items
}

// ---------------------------------------------------------------------------
// Changelog
// ---------------------------------------------------------------------------

/// A `## [x.y.z]` release heading: `## [` after optional whitespace, then a
/// digit.
pub open spec fn is_release_heading(line: Seq<char>) -> bool {
    let t = trim_start(line);
    starts_with(t, seq!['#', '#', ' ', '[']) && t.len() > 4 && is_digit(t[4])
}

/// Index of the first release heading in `ls`, or `ls.len()`.
pub open spec fn first_release(ls: Seq<Seq<char>>) -> int
    decreases ls.len(),
{
    if ls.len() == 0 {
        0
    } else if is_release_heading(ls[0]) {
        0
    } else {
        1 + first_release(ls.drop_first())
    }
}

pub proof fn lemma_first_release(ls: Seq<Seq<char>>)
    ensures
        0 <= first_release(ls) <= ls.len(),
        forall|j: int| 0 <= j < first_release(ls) ==> !is_release_heading(#[trigger] ls[j]),
        first_release(ls) < ls.len() ==> is_release_heading(ls[first_release(ls)]),
    decreases ls.len(),
{
    if ls.len() > 0 && !is_release_heading(ls[0]) {
        lemma_first_release(ls.drop_first());
        assert forall|j: int| 0 <= j < first_release(ls) implies !is_release_heading(#[trigger] ls[j]) by {
            if j > 0 {
                assert(ls[j] == ls.drop_first()[j - 1]);
            }
        }
    }
}

/// Lines joined with `'\n'` between them (`[..].join("\n")`).
pub open spec fn join_nl(ls: Seq<Seq<char>>) -> Seq<char> {
    if ls.len() == 0 {
        Seq::empty()
    } else {
        join_lines(ls.drop_last()) + ls.last()
    }
}

/// The changelog as the Updates window shows it: from the first release
/// heading on, or the whole text when there is none.
pub open spec fn changelog_view(src: Seq<char>) -> Seq<char> {
    let ls = lines(src);
    let k = first_release(ls);
    if k < ls.len() {
        join_nl(ls.subrange(k, ls.len() as int))
    } else {
        src
    }
}

fn release_heading(line: &[char]) -> (r: bool)
    ensures
        r == is_release_heading(line@),
{
    let lo = trim_start_at(line);
    let t = copy_range(line, lo, line.len());
    let p: [char; 4] = ['#', '#', ' ', '['];
    assert(p@ == seq!['#', '#', ' ', '[']);
    has_prefix(t.as_slice(), &p) && t.len() > 4 && '0' <= t[4] && t[4] <= '9'
}

/// Drops the changelog's introduction and unreleased section (see
/// [`changelog_view`]).
pub fn changelog_for_display(src: &str) -> (r: String)
    ensures
        r@ == changelog_view(src@),
{
    let v = chars_of(src);
    let ls = split_lines(v.as_slice());
    proof {
        lemma_first_release(lines(src@));
    }
    let mut i: usize = 0;
    while i < ls.len()
        invariant
            i <= ls@.len(),
            views(ls@) == lines(src@),
            forall|j: int| 0 <= j < i ==> !is_release_heading(#[trigger] lines(src@)[j]),
        decreases ls@.len() - i,
    {
        if release_heading(ls[i].as_slice()) {
            let ghost all = views(ls@);
            assert(first_release(all) == i) by {
                lemma_first_release(all);
                let f = first_release(all);
                if f < i {
                    assert(!is_release_heading(all[f]));
                }
                if f > i {
                    assert(all[i as int] == ls@[i as int]@);
                }
            }
            let mut out = String::new();
            let mut j: usize = i;
            while j < ls.len()
                invariant
                    i <= j <= ls@.len(),
                    i < ls@.len(),
                    all == views(ls@),
                    j == i ==> out@.len() == 0,
                    j > i ==> out@ == join_nl(all.subrange(i as int, j as int)),
                decreases ls@.len() - j,
            {
                let ghost before = all.subrange(i as int, j as int);
                assert(all.subrange(i as int, j + 1) =~= before.push(all[j as int]));
                if j > i {
                    out.push('\n');
                    proof {
                        assert(before.drop_last().push(before.last()) =~= before);
                        assert(join_lines(before) == join_lines(before.drop_last()) + before.last() + seq!['\n']);
                    }
                }
                push_chars(&mut out, ls[j].as_slice());
                assert(all[j as int] == ls@[j as int]@);
                proof {
                    let now = before.push(all[j as int]);
                    assert(now.drop_last() =~= before);
                    if j == i {
                        assert(before =~= Seq::<Seq<char>>::empty());
                        assert(join_lines(before) =~= Seq::<char>::empty());
                        assert(out@ =~= join_nl(now));
                    } else {
                        assert(out@ =~= join_nl(now));
                    }
                }
                j += 1;
            }
            return out;
        }
        assert(views(ls@)[i as int] == ls@[i as int]@);
        i += 1;
    }
    assert(first_release(lines(src@)) == lines(src@).len()) by {
        lemma_first_release(lines(src@));
        let f = first_release(lines(src@));
        if f < lines(src@).len() {
            assert(!is_release_heading(lines(src@)[f]));
        }
    }
    string_of(v.as_slice())
}

// ---------------------------------------------------------------------------
// Laws
// ---------------------------------------------------------------------------

/// Text without `*`, `` ` `` or `[` is shown exactly as written.
pub proof fn law_strip_plain(s: Seq<char>)
    requires
        !contains_char(s, '*'),
        !contains_char(s, '`'),
        !contains_char(s, '['),
    ensures
        strip_md(s) == s,
    decreases s.len(),
{
    if s.len() > 0 {
        assert(s[0] != '*' && s[0] != '`' && s[0] != '[');
        let t = s.drop_first();
        lemma_not_in_part(s, 1, s.len() as int, '*');
        lemma_not_in_part(s, 1, s.len() as int, '`');
        lemma_not_in_part(s, 1, s.len() as int, '[');
        assert(s.subrange(1, s.len() as int) =~= t);
        law_strip_plain(t);
        assert(seq![s[0]] + t =~= s);
    }
}

/// Without links, no emphasis or code marker survives stripping: every `*`
/// and `` ` `` is dropped, stray ones included.
pub proof fn law_strip_drops_markers(s: Seq<char>)
    requires
        !contains_char(s, '['),
    ensures
        !contains_char(strip_md(s), '*'),
        !contains_char(strip_md(s), '`'),
    decreases s.len(),
{
    if s.len() > 0 {
        assert(s[0] != '[');
        lemma_not_in_part(s, 1, s.len() as int, '[');
        assert(s.subrange(1, s.len() as int) =~= s.drop_first());
        law_strip_drops_markers(s.drop_first());
        if s[0] == '*' || s[0] == '`' {
            if s.len() >= 2 && s[1] == s[0] {
                lemma_not_in_part(s, 2, s.len() as int, '[');
                law_strip_drops_markers(s.subrange(2, s.len() as int));
            }
        } else {
            let head = seq![s[0]];
            assert(!contains_char(head, '*') && !contains_char(head, '`')) by {
                if contains_char(head, '*') || contains_char(head, '`') {
                    let i = choose|i: int| 0 <= i < head.len() && (head[i] == '*' || head[i] == '`');
                    assert(head[i] == s[0]);
                }
            }
            lemma_not_in_concat(head, strip_md(s.drop_first()), '*');
            lemma_not_in_concat(head, strip_md(s.drop_first()), '`');
        }
    }
}

proof fn lemma_line_no_markers(line: Seq<char>)
    requires
        !contains_char(line, '['),
    ensures
        !contains_char(md_line(line).text, '*'),
        !contains_char(md_line(line).text, '`'),
{
    let t = trim(line);
    lemma_trim_shape(line);
    lemma_not_in_part(line, line.len() - trim_start(line).len(), line.len() - trim_start(line).len() + t.len(), '[');
    assert(!contains_char(Seq::<char>::empty(), '*'));
    assert(!contains_char(Seq::<char>::empty(), '`'));
    if is_rule(t) {
    } else if starts_with(t, seq!['#', '#', '#', ' ']) {
        lemma_not_in_part(t, 4, t.len() as int, '[');
        law_strip_drops_markers(t.subrange(4, t.len() as int));
    } else if starts_with(t, seq!['#', '#', ' ']) {
        lemma_not_in_part(t, 3, t.len() as int, '[');
        law_strip_drops_markers(t.subrange(3, t.len() as int));
    } else if starts_with(t, seq!['#', ' ']) || starts_with(t, seq!['>', ' ']) {
        lemma_not_in_part(t, 2, t.len() as int, '[');
        law_strip_drops_markers(t.subrange(2, t.len() as int));
    } else if t.len() == 0 {
    } else {
        match bullet_of(line) {
            Some(rest) => {
                lemma_trim_start_shape(line);
                let ts = trim_start(line);
                lemma_not_in_part(line, line.len() - ts.len(), line.len() as int, '[');
                lemma_not_in_part(ts, 2, ts.len() as int, '[');
                law_strip_drops_markers(rest);
                let m = bullet_marker(line);
                assert(!contains_char(m, '*') && !contains_char(m, '`')) by {
                    if contains_char(m, '*') || contains_char(m, '`') {
                        let i = choose|i: int| 0 <= i < m.len() && (m[i] == '*' || m[i] == '`');
                    }
                }
                lemma_not_in_concat(m, strip_md(rest), '*');
                lemma_not_in_concat(m, strip_md(rest), '`');
            },
            None => {
                law_strip_drops_markers(t);
            },
        }
    }
}

proof fn lemma_run_no_markers(ls: Seq<Seq<char>>)
    requires
        forall|i: int| 0 <= i < ls.len() ==> !contains_char(#[trigger] ls[i], '['),
    ensures
        forall|i: int| 0 <= i < md_run(ls).1.len() && (#[trigger] md_run(ls).1[i]).kind != MdKind::Code.name()
            ==> !contains_char(md_run(ls).1[i].text, '*') && !contains_char(md_run(ls).1[i].text, '`'),
    decreases ls.len(),
{
    if ls.len() > 0 {
        let pre = ls.drop_last();
        assert forall|i: int| 0 <= i < pre.len() implies !contains_char(#[trigger] pre[i], '[') by {
            assert(pre[i] == ls[i]);
        }
        lemma_run_no_markers(pre);
        let line = ls.last();
        assert(!contains_char(ls[ls.len() - 1], '['));
        lemma_line_no_markers(line);
        let prev = md_run(pre);
        let now = md_run(ls);
        assert forall|i: int| 0 <= i < now.1.len() && (#[trigger] now.1[i]).kind != MdKind::Code.name()
            implies !contains_char(now.1[i].text, '*') && !contains_char(now.1[i].text, '`') by {
            if i < prev.1.len() {
                assert(now.1[i] == prev.1[i]);
            }
        }
    }
}

/// A document without links renders no `*` or `` ` `` outside its code
/// blocks: every emphasis and code marker is dropped from headings, quotes,
/// bullets and plain lines.
pub proof fn law_doc_drops_markers(src: Seq<char>)
    requires
        !contains_char(src, '['),
    ensures
        forall|i: int| 0 <= i < md_doc(src).len() && (#[trigger] md_doc(src)[i]).kind != MdKind::Code.name()
            ==> !contains_char(md_doc(src)[i].text, '*') && !contains_char(md_doc(src)[i].text, '`'),
{
    lemma_lines_not_in(src, '[');
    lemma_run_no_markers(lines(src));
}

/// A line that begins with a fence is a fence line.
proof fn lemma_fence_start(line: Seq<char>)
    requires
        starts_with(line, seq!['`', '`', '`']),
    ensures
        is_fence(line),
{
    assert(line[0] == '`' && line[1] == '`' && line[2] == '`');
    assert(trim_start(line) == line);
    crate::text::lemma_trim_end_keeps(line, 2);
    crate::text::lemma_trim_end_shape(line);
    let t = trim(line);
    assert(t[0] == line[0] && t[1] == line[1] && t[2] == line[2]);
    assert(t.subrange(0, 3) =~= seq!['`', '`', '`']);
}

proof fn lemma_run_no_fence(ls: Seq<Seq<char>>)
    requires
        forall|i: int| 0 <= i < ls.len() ==> !contains_char(#[trigger] ls[i], '['),
    ensures
        forall|i: int| 0 <= i < md_run(ls).1.len() ==> !starts_with(#[trigger] md_run(ls).1[i].text, seq!['`', '`', '`']),
    decreases ls.len(),
{
    if ls.len() > 0 {
        let pre = ls.drop_last();
        assert forall|i: int| 0 <= i < pre.len() implies !contains_char(#[trigger] pre[i], '[') by {
            assert(pre[i] == ls[i]);
        }
        lemma_run_no_fence(pre);
        let line = ls.last();
        assert(!contains_char(ls[ls.len() - 1], '['));
        let prev = md_run(pre);
        let now = md_run(ls);
        if !is_fence(line) {
            if starts_with(line, seq!['`', '`', '`']) {
                lemma_fence_start(line);
            }
            lemma_line_no_markers(line);
            let t = md_line(line).text;
            if starts_with(t, seq!['`', '`', '`']) {
                assert(t[0] == '`');
            }
        }
        assert forall|i: int| 0 <= i < now.1.len() implies !starts_with(#[trigger] now.1[i].text, seq!['`', '`', '`']) by {
            if i < prev.1.len() {
                assert(now.1[i] == prev.1[i]);
            }
        }
    }
}

/// In a document without links no rendered line starts with a code fence:
/// the fence lines themselves are never shown.
pub proof fn law_fences_not_shown(src: Seq<char>)
    requires
        !contains_char(src, '['),
    ensures
        forall|i: int| 0 <= i < md_doc(src).len() ==> !starts_with(#[trigger] md_doc(src)[i].text, seq!['`', '`', '`']),
{
    lemma_lines_not_in(src, '[');
    lemma_run_no_fence(lines(src));
}

/// `s` without its `*` and `` ` `` characters, everything else kept in order.
pub open spec fn without_markers(s: Seq<char>) -> Seq<char>
    decreases s.len(),
{
    if s.len() == 0 {
        Seq::empty()
    } else if s[0] == '*' || s[0] == '`' {
        without_markers(s.drop_first())
    } else {
        seq![s[0]] + without_markers(s.drop_first())
    }
}

/// Without links, stripping drops exactly the `*` and `` ` `` characters
/// and copies every other character whole and in order.
pub proof fn law_strip_is_marker_filter(s: Seq<char>)
    requires
        !contains_char(s, '['),
    ensures
        strip_md(s) == without_markers(s),
    decreases s.len(),
{
    if s.len() > 0 {
        assert(s[0] != '[');
        lemma_not_in_part(s, 1, s.len() as int, '[');
        assert(s.subrange(1, s.len() as int) =~= s.drop_first());
        law_strip_is_marker_filter(s.drop_first());
        if (s[0] == '*' || s[0] == '`') && s.len() >= 2 && s[1] == s[0] {
            let t = s.subrange(2, s.len() as int);
            lemma_not_in_part(s, 2, s.len() as int, '[');
            law_strip_is_marker_filter(t);
            assert(s.drop_first().drop_first() =~= t);
            assert(without_markers(s.drop_first()) == without_markers(t));
        }
    }
}

/// How many of the lines `ls` are fence lines.
pub open spec fn fence_count(ls: Seq<Seq<char>>) -> nat
    decreases ls.len(),
{
    if ls.len() == 0 {
        0
    } else {
        fence_count(ls.drop_last()) + if is_fence(ls.last()) {
            1nat
        } else {
            0nat
        }
    }
}

/// The lines that are not fences, each with whether an odd number of fence
/// lines comes before it (it then stands inside a code block).
pub open spec fn shown_lines(ls: Seq<Seq<char>>) -> Seq<(Seq<char>, bool)>
    decreases ls.len(),
{
    if ls.len() == 0 {
        Seq::empty()
    } else if is_fence(ls.last()) {
        shown_lines(ls.drop_last())
    } else {
        shown_lines(ls.drop_last()).push((ls.last(), fence_count(ls.drop_last()) % 2 == 1))
    }
}

/// How one shown line is rendered: verbatim as code inside a block, else
/// by its own markdown.
pub open spec fn render_shown(x: (Seq<char>, bool)) -> DocItemView {
    if x.1 {
        doc(x.0, MdKind::Code)
    } else {
        md_line(x.0)
    }
}

proof fn lemma_md_run_structure(ls: Seq<Seq<char>>)
    ensures
        md_run(ls).0 == (fence_count(ls) % 2 == 1),
        md_run(ls).1 == shown_lines(ls).map_values(|x: (Seq<char>, bool)| render_shown(x)),
    decreases ls.len(),
{
    if ls.len() > 0 {
        lemma_md_run_structure(ls.drop_last());
        let prev = shown_lines(ls.drop_last());
        if !is_fence(ls.last()) {
            assert(prev.push((ls.last(), fence_count(ls.drop_last()) % 2 == 1)).map_values(
                |x: (Seq<char>, bool)| render_shown(x),
            ) =~= prev.map_values(|x: (Seq<char>, bool)| render_shown(x)).push(
                render_shown((ls.last(), fence_count(ls.drop_last()) % 2 == 1)),
            ));
        }
    } else {
        assert(Seq::<(Seq<char>, bool)>::empty().map_values(|x: (Seq<char>, bool)| render_shown(x))
            =~= Seq::<DocItemView>::empty());
    }
}

/// A line outside a code block never gets the code style.
proof fn lemma_md_line_not_code(line: Seq<char>)
    ensures
        md_line(line).kind != MdKind::Code.name(),
{
    let k = md_line(line).kind;
    let c = MdKind::Code.name();
    if k.len() == c.len() {
        assert(k[0] != c[0]);
    }
}

/// `md_items` renders exactly the lines that are not fences, in order: a
/// line after an odd number of fence lines is shown verbatim with the code
/// style, and any other line by its own markdown, never with the code style.
pub proof fn law_md_items_structure(src: Seq<char>)
    ensures
        md_doc(src).len() == shown_lines(lines(src)).len(),
        forall|k: int| 0 <= k < md_doc(src).len() ==> #[trigger] md_doc(src)[k] == render_shown(shown_lines(lines(src))[k]),
        forall|k: int| 0 <= k < md_doc(src).len() ==> (#[trigger] md_doc(src)[k].kind == MdKind::Code.name()
            <==> shown_lines(lines(src))[k].1),
{
    let ls = lines(src);
    lemma_md_run_structure(ls);
    assert forall|k: int| 0 <= k < md_doc(src).len() implies (#[trigger] md_doc(src)[k].kind == MdKind::Code.name()
        <==> shown_lines(lines(src))[k].1) by {
        let x = shown_lines(ls)[k];
        if !x.1 {
            lemma_md_line_not_code(x.0);
        }
    }
}

} // verus!
