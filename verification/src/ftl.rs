//! Reading and writing flat Fluent (`.ftl`) message files.
//!
//! Only `key = value` messages are kept; `#` comments directly above a
//! message become its context; terms (`-x`), attributes (`.x`) and lines
//! that are not messages are skipped.

use vstd::prelude::*;

use crate::sorted_map::SortedMap;
use crate::text::{
    char_is_ascii_alpha, char_is_ascii_digit, chars_of, find_char, first_idx, is_ascii_alpha,
    is_ascii_digit, join_nl, join_nl_chars, push_char, push_chars, push_str, skip_ws, split_lines,
    split_nl, split_nl_chars, str_lines, string_of, string_views, sub_chars, trim, trim_bounds,
    trim_chars, trim_start, trim_start_chars, views,
};

verus! {

/// Messages of one locale, by key.
pub type Messages = SortedMap<String>;

/// Context (comment) text of messages, by key.
pub type Contexts = SortedMap<String>;

/// What one `.ftl` file holds, and what was skipped in it.
pub struct ParsedFtl {
    pub messages: Messages,
    pub contexts: Contexts,
    pub warnings: Vec<FtlWarning>,
}

/// What a warning about an `.ftl` file is about.
#[derive(Clone, Copy, Debug, PartialEq, Eq, Structural)]
pub enum FtlWarningKind {
    /// A term (`-x = ...`) was skipped; the text is the line, shortened.
    Term,
    /// An attribute line with no message above it was skipped; the text is
    /// the line, shortened.
    AttributeLine,
    /// A message with an invalid identifier was skipped; the text is the
    /// identifier.
    InvalidId,
    /// A message value looks like a selector and is kept as raw text; the
    /// text is the key.
    Selector,
    /// An attribute of a message was skipped; the text is the key.
    Attribute,
    /// A line that is no message, comment, term or attribute was skipped;
    /// the text is the line, shortened.
    Unrecognized,
}

/// A warning about an `.ftl` file.
pub struct FtlWarning {
    pub kind: FtlWarningKind,
    pub text: String,
}

impl View for FtlWarning {
    type V = (FtlWarningKind, Seq<char>);

    open spec fn view(&self) -> (FtlWarningKind, Seq<char>) {
        (self.kind, self.text@)
    }
}

/// The view of each warning.
pub open spec fn warning_views(ws: Seq<FtlWarning>) -> Seq<(FtlWarningKind, Seq<char>)> {
    ws.map_values(|w: FtlWarning| w@)
}

// ---------------------------------------------------------------------------
// Identifiers
// ---------------------------------------------------------------------------

/// A char that may follow the first char of an identifier.
pub open spec fn is_id_char(c: char) -> bool {
    is_ascii_alpha(c) || is_ascii_digit(c) || c == '_' || c == '-'
}

/// A Fluent message identifier: an ASCII letter, then ASCII letters,
/// digits, `_` and `-`.
pub open spec fn valid_ftl_id(s: Seq<char>) -> bool {
    &&& s.len() > 0
    &&& is_ascii_alpha(s[0])
    &&& forall|i: int| 1 <= i < s.len() ==> is_id_char(#[trigger] s[i])
}

fn chars_are_ftl_id(v: &[char]) -> (b: bool)
    ensures
        b == valid_ftl_id(v@),
{
    if v.len() == 0 || !char_is_ascii_alpha(v[0]) {
        return false;
    }
    let mut i: usize = 1;
    while i < v.len()
        invariant
            1 <= i <= v@.len(),
            forall|j: int| 1 <= j < i ==> is_id_char(#[trigger] v@[j]),
        decreases v@.len() - i,
    {
        let c = v[i];
        if !(char_is_ascii_alpha(c) || char_is_ascii_digit(c) || c == '_' || c == '-') {
            assert(!is_id_char(v@[i as int]));
            return false;
        }
        i += 1;
    }
    true
}

/// Whether `id` is a valid Fluent message identifier.
pub fn is_valid_ftl_id(id: &str) -> (b: bool)
    ensures
        b == valid_ftl_id(id@),
{
    let v = chars_of(id);
    chars_are_ftl_id(v.as_slice())
}

// ---------------------------------------------------------------------------
// Parsing: what `parse_ftl_file` computes
// ---------------------------------------------------------------------------

/// `s` starts with `c`.
pub open spec fn starts_with(s: Seq<char>, c: char) -> bool {
    s.len() > 0 && s[0] == c
}

/// A line that starts with a space or a tab.
pub open spec fn is_indented(l: Seq<char>) -> bool {
    starts_with(l, ' ') || starts_with(l, '\t')
}

/// A line that, trimmed, starts with `.` (an attribute).
pub open spec fn is_attr_line(l: Seq<char>) -> bool {
    starts_with(trim(l), '.')
}

/// From line `j` on, the first line that is neither indented nor an
/// attribute: where the body of a skipped entry ends.
pub open spec fn body_end(lines: Seq<Seq<char>>, j: int) -> int
    decreases lines.len() - j,
{
    if j < 0 || j >= lines.len() || !(is_indented(lines[j]) || is_attr_line(lines[j])) {
        j
    } else {
        body_end(lines, j + 1)
    }
}

/// From line `j` on, the first line that is not indented, or that is an
/// attribute: where the lines of a value end.
pub open spec fn indented_end(lines: Seq<Seq<char>>, j: int) -> int
    decreases lines.len() - j,
{
    if j < 0 || j >= lines.len() || !is_indented(lines[j]) || is_attr_line(lines[j]) {
        j
    } else {
        indented_end(lines, j + 1)
    }
}

/// From line `j` on, the first line that is not an attribute.
pub open spec fn attr_end(lines: Seq<Seq<char>>, j: int) -> int
    decreases lines.len() - j,
{
    if j < 0 || j >= lines.len() || !is_attr_line(lines[j]) {
        j
    } else {
        attr_end(lines, j + 1)
    }
}

/// Drops the empty pieces at the end.
pub open spec fn drop_trailing_empty(parts: Seq<Seq<char>>) -> Seq<Seq<char>>
    decreases parts.len(),
{
    if parts.len() > 0 && parts.last().len() == 0 {
        drop_trailing_empty(parts.drop_last())
    } else {
        parts
    }
}

/// The value held by the indented lines from line `j` on, up to the first
/// attribute line: each line with its indentation removed, trailing empty
/// lines dropped, joined by `\n`.
pub open spec fn multiline_value(lines: Seq<Seq<char>>, j: int) -> Seq<char> {
    join_nl(
        drop_trailing_empty(
            lines.subrange(j, indented_end(lines, j)).map_values(|l: Seq<char>| trim_start(l)),
        ),
    )
}

/// `trim_start_matches('#')`.
pub open spec fn strip_hashes(s: Seq<char>) -> Seq<char>
    decreases s.len(),
{
    if starts_with(s, '#') {
        strip_hashes(s.drop_first())
    } else {
        s
    }
}

/// The text of a trimmed comment line.
pub open spec fn comment_text(t: Seq<char>) -> Seq<char> {
    trim_start(strip_hashes(t))
}

/// The non-empty pieces, in order.
pub open spec fn drop_empty(parts: Seq<Seq<char>>) -> Seq<Seq<char>>
    decreases parts.len(),
{
    if parts.len() == 0 {
        parts
    } else if parts.last().len() > 0 {
        drop_empty(parts.drop_last()).push(parts.last())
    } else {
        drop_empty(parts.drop_last())
    }
}

/// The context made of the pending comment lines: the non-empty ones,
/// joined by `\n`.
pub open spec fn context_of(pending: Seq<Seq<char>>) -> Seq<char> {
    join_nl(drop_empty(pending))
}

pub proof fn lemma_body_end_ge(lines: Seq<Seq<char>>, j: int)
    ensures
        body_end(lines, j) >= j,
        j >= 0 ==> body_end(lines, j) <= lines.len() || body_end(lines, j) == j,
    decreases lines.len() - j,
{
    if !(j < 0 || j >= lines.len() || !(is_indented(lines[j]) || is_attr_line(lines[j]))) {
        lemma_body_end_ge(lines, j + 1);
    }
}

pub proof fn lemma_indented_end_ge(lines: Seq<Seq<char>>, j: int)
    ensures
        indented_end(lines, j) >= j,
        0 <= j <= lines.len() ==> indented_end(lines, j) <= lines.len(),
    decreases lines.len() - j,
{
    if !(j < 0 || j >= lines.len() || !is_indented(lines[j])) {
        lemma_indented_end_ge(lines, j + 1);
    }
}

pub proof fn lemma_attr_end_ge(lines: Seq<Seq<char>>, j: int)
    ensures
        attr_end(lines, j) >= j,
        0 <= j <= lines.len() ==> attr_end(lines, j) <= lines.len(),
    decreases lines.len() - j,
{
    if !(j < 0 || j >= lines.len() || !is_attr_line(lines[j])) {
        lemma_attr_end_ge(lines, j + 1);
    }
}

/// One message line: the key (trimmed text before the first `=`) and the
/// text after it (with leading whitespace dropped).
pub open spec fn eq_key(t: Seq<char>) -> Seq<char> {
    trim(t.take(first_idx(t, '=') as int))
}

pub open spec fn eq_rest(t: Seq<char>) -> Seq<char> {
    trim_start(t.skip(first_idx(t, '=') as int + 1))
}

/// The line-by-line reading of an `.ftl` file, from line `i` on, with the
/// comment lines seen since the last blank line in `pending` and what was
/// read so far in `msgs` and `ctxs`.
pub open spec fn parse_lines(
    lines: Seq<Seq<char>>,
    i: int,
    pending: Seq<Seq<char>>,
    msgs: Map<Seq<char>, Seq<char>>,
    ctxs: Map<Seq<char>, Seq<char>>,
) -> (Map<Seq<char>, Seq<char>>, Map<Seq<char>, Seq<char>>)
    decreases lines.len() - i,
{
    if i < 0 || i >= lines.len() {
        (msgs, ctxs)
    } else {
        let t = trim(lines[i]);
        if t.len() == 0 {
            parse_lines(lines, i + 1, seq![], msgs, ctxs)
        } else if t[0] == '#' {
            parse_lines(lines, i + 1, pending.push(comment_text(t)), msgs, ctxs)
        } else if t[0] == '-' {
            proof {
                lemma_body_end_ge(lines, i + 1);
            }
            parse_lines(lines, body_end(lines, i + 1), seq![], msgs, ctxs)
        } else if t[0] == '.' {
            parse_lines(lines, i + 1, seq![], msgs, ctxs)
        } else if first_idx(t, '=') < t.len() {
            let key = eq_key(t);
            if !valid_ftl_id(key) {
                proof {
                    lemma_body_end_ge(lines, i + 1);
                }
                parse_lines(lines, body_end(lines, i + 1), seq![], msgs, ctxs)
            } else {
                let after = eq_rest(t);
                let value = if after.len() == 0 {
                    multiline_value(lines, i + 1)
                } else {
                    after
                };
                let next = if after.len() == 0 {
                    indented_end(lines, i + 1)
                } else {
                    i + 1
                };
                let ctx = context_of(pending);
                let ctxs2 = if ctx.len() > 0 {
                    ctxs.insert(key, ctx)
                } else {
                    ctxs
                };
                proof {
                    lemma_indented_end_ge(lines, i + 1);
                    lemma_attr_end_ge(lines, next);
                }
                parse_lines(lines, attr_end(lines, next), seq![], msgs.insert(key, value), ctxs2)
            }
        } else {
            parse_lines(lines, i + 1, seq![], msgs, ctxs)
        }
    }
}

/// The messages and contexts that an `.ftl` text holds.
pub open spec fn parse_ftl(content: Seq<char>) -> (
    Map<Seq<char>, Seq<char>>,
    Map<Seq<char>, Seq<char>>,
) {
    parse_lines(str_lines(content), 0, seq![], Map::empty(), Map::empty())
}

/// A line as a warning shows it: its first `max` chars, and `…` when it is
/// longer.
pub open spec fn truncated(s: Seq<char>, max: int) -> Seq<char> {
    if s.len() > max {
        s.take(max).push('\u{2026}')
    } else {
        s
    }
}

/// `v` holds `->` somewhere.
pub open spec fn has_arrow(v: Seq<char>) -> bool {
    exists|i: int| 0 <= i < v.len() - 1 && #[trigger] v[i] == '-' && v[i + 1] == '>'
}

/// A value that looks like a Fluent selector: it holds `->` and `{`.
pub open spec fn looks_like_selector(v: Seq<char>) -> bool {
    has_arrow(v) && v.contains('{')
}

/// The warnings about the lines from line `i` on, in the order of the
/// lines: the reading of `parse_lines`, and what it skips.
pub open spec fn warnings_from(lines: Seq<Seq<char>>, i: int) -> Seq<(FtlWarningKind, Seq<char>)>
    decreases lines.len() - i,
{
    if i < 0 || i >= lines.len() {
        seq![]
    } else {
        let t = trim(lines[i]);
        if t.len() == 0 || t[0] == '#' {
            warnings_from(lines, i + 1)
        } else if t[0] == '-' {
            proof {
                lemma_body_end_ge(lines, i + 1);
            }
            seq![(FtlWarningKind::Term, truncated(t, 50))] + warnings_from(
                lines,
                body_end(lines, i + 1),
            )
        } else if t[0] == '.' {
            seq![(FtlWarningKind::AttributeLine, truncated(t, 50))] + warnings_from(lines, i + 1)
        } else if first_idx(t, '=') < t.len() {
            let key = eq_key(t);
            if !valid_ftl_id(key) {
                proof {
                    lemma_body_end_ge(lines, i + 1);
                }
                seq![(FtlWarningKind::InvalidId, key)] + warnings_from(lines, body_end(lines, i + 1))
            } else {
                let after = eq_rest(t);
                let value = if after.len() == 0 {
                    multiline_value(lines, i + 1)
                } else {
                    after
                };
                let next = if after.len() == 0 {
                    indented_end(lines, i + 1)
                } else {
                    i + 1
                };
                proof {
                    lemma_indented_end_ge(lines, i + 1);
                    lemma_attr_end_ge(lines, next);
                }
                let end = attr_end(lines, next);
                (if looks_like_selector(value) {
                    seq![(FtlWarningKind::Selector, key)]
                } else {
                    seq![]
                }) + Seq::new((end - next) as nat, |j: int| (FtlWarningKind::Attribute, key))
                    + warnings_from(lines, end)
            }
        } else {
            seq![(FtlWarningKind::Unrecognized, truncated(t, 60))] + warnings_from(lines, i + 1)
        }
    }
}

/// The warnings about an `.ftl` text.
pub open spec fn ftl_warnings(content: Seq<char>) -> Seq<(FtlWarningKind, Seq<char>)> {
    warnings_from(str_lines(content), 0)
}

// ---------------------------------------------------------------------------
// Parsing: the executable reader
// ---------------------------------------------------------------------------

/// A line as a warning shows it: its first `max` chars, and `…` when it is
/// longer.
fn truncate(s: &Vec<char>, max: usize) -> (r: String)
    ensures
        r@ == truncated(s@, max as int),
{
    if s.len() > max {
        let mut r = string_of(s.as_slice(), 0, max);
        push_char(&mut r, '\u{2026}');
        r
    } else {
        string_of_chars(s)
    }
}

/// Whether a value looks like a Fluent selector (`->` and `{`).
fn value_looks_like_selector(v: &Vec<char>) -> (b: bool)
    ensures
        b == looks_like_selector(v@),
{
    let mut arrow = false;
    let mut brace = false;
    let mut i: usize = 0;
    while i < v.len()
        invariant
            i <= v@.len(),
            arrow == exists|j: int| 0 <= j < i && j < v@.len() - 1 && #[trigger] v@[j] == '-' && v@[j + 1] == '>',
            brace == exists|j: int| 0 <= j < i && #[trigger] v@[j] == '{',
        decreases v@.len() - i,
    {
        if v[i] == '-' && i + 1 < v.len() && v[i + 1] == '>' {
            arrow = true;
        }
        if v[i] == '{' {
            brace = true;
        }
        i += 1;
    }
    proof {
        if brace {
            let j = choose|j: int| 0 <= j < i && #[trigger] v@[j] == '{';
            assert(v@.contains('{'));
        }
        if v@.contains('{') {
            let j = choose|j: int| 0 <= j < v@.len() && v@[j] == '{';
            assert(v@[j] == '{');
        }
    }
    arrow && brace
}

/// Appends `count` warnings about skipped attributes of message `key`.
fn push_attribute_warnings(warnings: &mut Vec<FtlWarning>, key: &Vec<char>, count: usize)
    ensures
        warning_views(final(warnings)@) == warning_views(old(warnings)@) + Seq::new(
            count as nat,
            |j: int| (FtlWarningKind::Attribute, key@),
        ),
{
    let ghost start = warning_views(warnings@);
    let mut n: usize = 0;
    while n < count
        invariant
            n <= count,
            warning_views(warnings@) == start + Seq::new(
                n as nat,
                |j: int| (FtlWarningKind::Attribute, key@),
            ),
        decreases count - n,
    {
        let ghost before = warning_views(warnings@);
        warnings.push(FtlWarning { kind: FtlWarningKind::Attribute, text: string_of_chars(key) });
        assert(warning_views(warnings@) =~= before.push((FtlWarningKind::Attribute, key@)));
        assert(start + Seq::new((n + 1) as nat, |j: int| (FtlWarningKind::Attribute, key@))
            =~= (start + Seq::new(n as nat, |j: int| (FtlWarningKind::Attribute, key@))).push(
            (FtlWarningKind::Attribute, key@),
        ));
        n += 1;
    }
}

fn line_is_indented(l: &Vec<char>) -> (b: bool)
    ensures
        b == is_indented(l@),
{
    l.len() > 0 && (l[0] == ' ' || l[0] == '\t')
}

fn line_is_attr(l: &Vec<char>) -> (b: bool)
    ensures
        b == is_attr_line(l@),
{
    let (a, b) = trim_bounds(l.as_slice(), 0, l.len());
    assert(l@.subrange(0, l@.len() as int) == l@);
    a < b && l[a] == '.'
}

fn body_end_at(lines: &Vec<Vec<char>>, j: usize) -> (r: usize)
    requires
        j <= lines@.len(),
    ensures
        r as int == body_end(views(lines@), j as int),
        j <= r <= lines@.len(),
{
    let ghost ls = views(lines@);
    let mut k = j;
    while k < lines.len() && (line_is_indented(&lines[k]) || line_is_attr(&lines[k]))
        invariant
            j <= k <= lines@.len(),
            ls == views(lines@),
            body_end(ls, k as int) == body_end(ls, j as int),
        decreases lines@.len() - k,
    {
        assert(ls[k as int] == lines@[k as int]@);
        k += 1;
    }
    proof {
        if k < lines.len() {
            assert(ls[k as int] == lines@[k as int]@);
        }
    }
    k
}

fn indented_end_at(lines: &Vec<Vec<char>>, j: usize) -> (r: usize)
    requires
        j <= lines@.len(),
    ensures
        r as int == indented_end(views(lines@), j as int),
        j <= r <= lines@.len(),
{
    let ghost ls = views(lines@);
    let mut k = j;
    while k < lines.len() && line_is_indented(&lines[k]) && !line_is_attr(&lines[k])
        invariant
            j <= k <= lines@.len(),
            ls == views(lines@),
            indented_end(ls, k as int) == indented_end(ls, j as int),
        decreases lines@.len() - k,
    {
        assert(ls[k as int] == lines@[k as int]@);
        k += 1;
    }
    proof {
        if k < lines.len() {
            assert(ls[k as int] == lines@[k as int]@);
        }
    }
    k
}

fn attr_end_at(lines: &Vec<Vec<char>>, j: usize) -> (r: usize)
    requires
        j <= lines@.len(),
    ensures
        r as int == attr_end(views(lines@), j as int),
        j <= r <= lines@.len(),
{
    let ghost ls = views(lines@);
    let mut k = j;
    while k < lines.len() && line_is_attr(&lines[k])
        invariant
            j <= k <= lines@.len(),
            ls == views(lines@),
            attr_end(ls, k as int) == attr_end(ls, j as int),
        decreases lines@.len() - k,
    {
        assert(ls[k as int] == lines@[k as int]@);
        k += 1;
    }
    proof {
        if k < lines.len() {
            assert(ls[k as int] == lines@[k as int]@);
        }
    }
    k
}

/// The value held by the indented lines from line `j` on, and the line after them.
fn multiline_value_at(lines: &Vec<Vec<char>>, j: usize) -> (r: (Vec<char>, usize))
    requires
        j <= lines@.len(),
    ensures
        r.0@ == multiline_value(views(lines@), j as int),
        r.1 as int == indented_end(views(lines@), j as int),
        j <= r.1 <= lines@.len(),
{
    let ghost ls = views(lines@);
    let end = indented_end_at(lines, j);
    let ghost all = ls.subrange(j as int, end as int).map_values(|l: Seq<char>| trim_start(l));
    let mut parts: Vec<Vec<char>> = Vec::new();
    let mut k = j;
    while k < end
        invariant
            j <= k <= end <= lines@.len(),
            ls == views(lines@),
            all == ls.subrange(j as int, end as int).map_values(|l: Seq<char>| trim_start(l)),
            views(parts@) == all.take(k - j),
        decreases end - k,
    {
        let p = trim_start_chars(lines[k].as_slice());
        assert(ls[k as int] == lines@[k as int]@);
        assert(all[k - j] == trim_start(ls[k as int]));
        let ghost before = views(parts@);
        parts.push(p);
        assert(views(parts@) =~= before.push(p@));
        assert(views(parts@) =~= all.take(k + 1 - j));
        k += 1;
    }
    assert(all.take(end - j) =~= all);
    while parts.len() > 0 && parts[parts.len() - 1].len() == 0
        invariant
            drop_trailing_empty(views(parts@)) == drop_trailing_empty(all),
        decreases parts@.len(),
    {
        let ghost before = views(parts@);
        parts.pop();
        assert(views(parts@) =~= before.drop_last());
    }
    let v = join_nl_chars(&parts);
    (v, end)
}

/// `strip_hashes(v)` is `v` past its leading `#`s.
proof fn lemma_strip_hashes_is(s: Seq<char>, k: int)
    requires
        0 <= k <= s.len(),
        forall|i: int| 0 <= i < k ==> #[trigger] s[i] == '#',
        k < s.len() ==> s[k] != '#',
    ensures
        strip_hashes(s) == s.skip(k),
    decreases s.len(),
{
    if k > 0 {
        assert forall|i: int| 0 <= i < k - 1 implies #[trigger] s.drop_first()[i] == '#' by {
            assert(s.drop_first()[i] == s[i + 1]);
        }
        lemma_strip_hashes_is(s.drop_first(), k - 1);
        assert(s.drop_first().skip(k - 1) =~= s.skip(k));
    } else {
        assert(s.skip(0) =~= s);
    }
}

/// The text of a trimmed comment line.
fn comment_text_of(t: &Vec<char>) -> (r: Vec<char>)
    ensures
        r@ == comment_text(t@),
{
    let mut k: usize = 0;
    while k < t.len() && t[k] == '#'
        invariant
            k <= t@.len(),
            forall|i: int| 0 <= i < k ==> #[trigger] t@[i] == '#',
        decreases t@.len() - k,
    {
        k += 1;
    }
    proof {
        lemma_strip_hashes_is(t@, k as int);
    }
    let a = skip_ws(t.as_slice(), k, t.len());
    assert(t@.subrange(k as int, t@.len() as int) == t@.skip(k as int));
    sub_chars(t.as_slice(), a, t.len())
}

/// The context made of the pending comment lines.
fn context_of_pending(pending: &Vec<Vec<char>>) -> (r: Vec<char>)
    ensures
        r@ == context_of(views(pending@)),
{
    let ghost ps = views(pending@);
    let mut kept: Vec<Vec<char>> = Vec::new();
    let mut i: usize = 0;
    while i < pending.len()
        invariant
            i <= pending@.len(),
            ps == views(pending@),
            views(kept@) == drop_empty(ps.take(i as int)),
        decreases pending@.len() - i,
    {
        assert(ps.take(i + 1).drop_last() =~= ps.take(i as int));
        if pending[i].len() > 0 {
            let ghost before = views(kept@);
            kept.push(copy_chars(&pending[i]));
            assert(views(kept@) =~= before.push(ps[i as int]));
        }
        i += 1;
    }
    assert(ps.take(pending@.len() as int) =~= ps);
    join_nl_chars(&kept)
}

fn copy_chars(v: &Vec<char>) -> (r: Vec<char>)
    ensures
        r@ == v@,
{
    let r = sub_chars(v.as_slice(), 0, v.len());
    assert(v@.subrange(0, v@.len() as int) =~= v@);
    r
}

/// A `String` with the chars of `v`.
fn string_of_chars(v: &Vec<char>) -> (s: String)
    ensures
        s@ == v@,
{
    let s = string_of(v.as_slice(), 0, v.len());
    assert(v@.subrange(0, v@.len() as int) =~= v@);
    s
}

/// Reads the messages of an `.ftl` text, and the comments above them.
///
/// Blank lines end a comment block; a message takes the non-empty lines of
/// the comment block right above it as its context. A message whose value
/// is empty on the key line takes the indented lines below it. Terms,
/// attributes, invalid identifiers and other lines are skipped, each with
/// a warning; so is a message that looks like a selector, though it is
/// kept.
pub fn parse_ftl_file(content: &str) -> (p: ParsedFtl)
    ensures
        p.messages.wf(),
        p.contexts.wf(),
        (p.messages@, p.contexts@) == parse_ftl(content@),
        warning_views(p.warnings@) == ftl_warnings(content@),
{
    let chars = chars_of(content);
    let lines = split_lines(chars.as_slice());
    let ghost ls = views(lines@);
    let mut messages = Messages::new();
    let mut contexts = Contexts::new();
    let mut warnings: Vec<FtlWarning> = Vec::new();
    let mut pending: Vec<Vec<char>> = Vec::new();
    let mut i: usize = 0;
    assert(views(pending@) =~= Seq::<Seq<char>>::empty());
    assert(warning_views(warnings@) + warnings_from(ls, 0) =~= warnings_from(ls, 0));
    while i < lines.len()
        invariant
            i <= lines@.len(),
            ls == views(lines@),
            ls == str_lines(content@),
            messages.wf(),
            contexts.wf(),
            parse_lines(ls, i as int, views(pending@), messages@, contexts@) == parse_ftl(content@),
            warning_views(warnings@) + warnings_from(ls, i as int) == ftl_warnings(content@),
        decreases lines@.len() - i,
    {
        let t = trim_chars(lines[i].as_slice());
        assert(t@ == trim(ls[i as int]));
        let ghost before = warning_views(warnings@);
        let ghost i0 = i as int;
        if t.len() == 0 {
            pending = Vec::new();
            assert(views(pending@) =~= Seq::<Seq<char>>::empty());
            i += 1;
        } else if t[0] == '#' {
            let ghost pb = views(pending@);
            pending.push(comment_text_of(&t));
            assert(views(pending@) =~= pb.push(comment_text(t@)));
            i += 1;
        } else if t[0] == '-' {
            pending = Vec::new();
            assert(views(pending@) =~= Seq::<Seq<char>>::empty());
            warnings.push(FtlWarning { kind: FtlWarningKind::Term, text: truncate(&t, 50) });
            i = body_end_at(&lines, i + 1);
            assert(warning_views(warnings@) =~= before.push((FtlWarningKind::Term, truncated(t@, 50))));
            assert(warning_views(warnings@) + warnings_from(ls, i as int) =~= before + warnings_from(ls, i0));
        } else if t[0] == '.' {
            pending = Vec::new();
            assert(views(pending@) =~= Seq::<Seq<char>>::empty());
            warnings.push(FtlWarning { kind: FtlWarningKind::AttributeLine, text: truncate(&t, 50) });
            i += 1;
            assert(warning_views(warnings@) =~= before.push((FtlWarningKind::AttributeLine, truncated(t@, 50))));
            assert(warning_views(warnings@) + warnings_from(ls, i as int) =~= before + warnings_from(ls, i0));
        } else {
            let eq = find_char(t.as_slice(), 0, '=');
            assert(t@.skip(0) =~= t@);
            if eq < t.len() {
                let (ka, kb) = trim_bounds(t.as_slice(), 0, eq);
                assert(t@.subrange(0, eq as int) =~= t@.take(eq as int));
                let key_chars = sub_chars(t.as_slice(), ka, kb);
                assert(key_chars@ == eq_key(t@));
                if !chars_are_ftl_id(key_chars.as_slice()) {
                    pending = Vec::new();
                    assert(views(pending@) =~= Seq::<Seq<char>>::empty());
                    warnings.push(FtlWarning { kind: FtlWarningKind::InvalidId, text: string_of_chars(&key_chars) });
                    i = body_end_at(&lines, i + 1);
                    assert(warning_views(warnings@) =~= before.push((FtlWarningKind::InvalidId, key_chars@)));
                    assert(warning_views(warnings@) + warnings_from(ls, i as int) =~= before + warnings_from(ls, i0));
                } else {
                    let a = skip_ws(t.as_slice(), eq + 1, t.len());
                    assert(t@.subrange(eq + 1, t@.len() as int) =~= t@.skip(eq + 1));
                    let after = sub_chars(t.as_slice(), a, t.len());
                    assert(after@ == eq_rest(t@));
                    let value;
                    let next;
                    if after.len() == 0 {
                        let (v, n) = multiline_value_at(&lines, i + 1);
                        value = v;
                        next = n;
                    } else {
                        value = after;
                        next = i + 1;
                    }
                    let ctx = context_of_pending(&pending);
                    if ctx.len() > 0 {
                        contexts.insert(string_of_chars(&key_chars), string_of_chars(&ctx));
                    }
                    pending = Vec::new();
                    assert(views(pending@) =~= Seq::<Seq<char>>::empty());
                    let selector = value_looks_like_selector(&value);
                    if selector {
                        warnings.push(FtlWarning { kind: FtlWarningKind::Selector, text: string_of_chars(&key_chars) });
                    }
                    let ghost mid = warning_views(warnings@);
                    assert(mid =~= before + if selector {
                        seq![(FtlWarningKind::Selector, key_chars@)]
                    } else {
                        seq![]
                    });
                    i = attr_end_at(&lines, next);
                    push_attribute_warnings(&mut warnings, &key_chars, i - next);
                    assert(warning_views(warnings@) + warnings_from(ls, i as int) =~= before + warnings_from(ls, i0));
                    messages.insert(string_of_chars(&key_chars), string_of_chars(&value));
                }
            } else {
                pending = Vec::new();
                assert(views(pending@) =~= Seq::<Seq<char>>::empty());
                warnings.push(FtlWarning { kind: FtlWarningKind::Unrecognized, text: truncate(&t, 60) });
                i += 1;
                assert(warning_views(warnings@) =~= before.push((FtlWarningKind::Unrecognized, truncated(t@, 60))));
                assert(warning_views(warnings@) + warnings_from(ls, i as int) =~= before + warnings_from(ls, i0));
            }
        }
    }
    ParsedFtl { messages, contexts, warnings }
}

// ---------------------------------------------------------------------------
// Rendering
// ---------------------------------------------------------------------------

/// One line of a context, as a comment: `#` alone for an empty line.
pub open spec fn comment_line(l: Seq<char>) -> Seq<char> {
    if l.len() == 0 {
        seq!['#', '\n']
    } else {
        seq!['#', ' '] + l + seq!['\n']
    }
}

/// A context rendered as comment lines, one per line of the context.
pub open spec fn comment_block(ls: Seq<Seq<char>>) -> Seq<char>
    decreases ls.len(),
{
    if ls.len() == 0 {
        seq![]
    } else {
        comment_block(ls.drop_last()) + comment_line(ls.last())
    }
}

/// The lines of a value, each indented by four spaces.
pub open spec fn indented_block(ls: Seq<Seq<char>>) -> Seq<char>
    decreases ls.len(),
{
    if ls.len() == 0 {
        seq![]
    } else {
        indented_block(ls.drop_last()) + seq![' ', ' ', ' ', ' '] + ls.last() + seq!['\n']
    }
}

/// A value that cannot stand on the key line: empty, several lines, or
/// starting with a space, a tab, `[` or `.`.
pub open spec fn needs_multiline(v: Seq<char>) -> bool {
    ||| v.len() == 0
    ||| first_idx(v, '\n') < v.len()
    ||| starts_with(v, ' ')
    ||| starts_with(v, '\t')
    ||| starts_with(v, '[')
    ||| starts_with(v, '.')
}

/// The text of one message: `key = value`, or `key =` followed by the
/// indented lines of the value.
pub open spec fn entry_text(k: Seq<char>, v: Seq<char>) -> Seq<char> {
    if needs_multiline(v) {
        k + seq![' ', '=', '\n'] + if v.len() == 0 {
            seq![]
        } else {
            indented_block(split_nl(v))
        }
    } else {
        k + seq![' ', '=', ' '] + v + seq!['\n']
    }
}

/// The comment block of the context of `k`, if it has one.
pub open spec fn context_text(k: Seq<char>, ctxs: Map<Seq<char>, Seq<char>>) -> Seq<char> {
    if ctxs.contains_key(k) {
        comment_block(str_lines(ctxs[k]))
    } else {
        seq![]
    }
}

/// One rendered message: its context, the message, a blank line.
pub open spec fn render_entry(
    k: Seq<char>,
    v: Seq<char>,
    ctxs: Map<Seq<char>, Seq<char>>,
) -> Seq<char> {
    context_text(k, ctxs) + entry_text(k, v) + seq!['\n']
}

/// The first `n` messages rendered, in order.
pub open spec fn render_prefix(
    keys: Seq<Seq<char>>,
    vals: Seq<Seq<char>>,
    ctxs: Map<Seq<char>, Seq<char>>,
    n: int,
) -> Seq<char>
    decreases n,
{
    if n <= 0 {
        seq![]
    } else {
        render_prefix(keys, vals, ctxs, n - 1) + render_entry(keys[n - 1], vals[n - 1], ctxs)
    }
}

/// The `.ftl` text of the messages `keys[i] = vals[i]`, in this order.
pub open spec fn render_spec(
    keys: Seq<Seq<char>>,
    vals: Seq<Seq<char>>,
    ctxs: Map<Seq<char>, Seq<char>>,
) -> Seq<char> {
    render_prefix(keys, vals, ctxs, keys.len() as int)
}

/// Appends the text of one message.
fn write_entry(out: &mut String, key: &str, value: &str)
    ensures
        final(out)@ == old(out)@ + entry_text(key@, value@),
{
    let v = chars_of(value);
    let nl = find_char(v.as_slice(), 0, '\n');
    assert(v@.skip(0) =~= v@);
    let needs_multiline = v.len() == 0 || nl < v.len() || v[0] == ' ' || v[0] == '\t' || v[0]
        == '[' || v[0] == '.';
    let ghost start = out@;
    push_str(out, key);
    if needs_multiline {
        push_char(out, ' ');
        push_char(out, '=');
        push_char(out, '\n');
        assert(out@ =~= start + key@ + seq![' ', '=', '\n']);
        if v.len() == 0 {
            return;
        }
        let pieces = split_nl_chars(v.as_slice());
        let ghost mid = out@;
        let mut i: usize = 0;
        while i < pieces.len()
            invariant
                i <= pieces@.len(),
                out@ == mid + indented_block(views(pieces@).take(i as int)),
            decreases pieces@.len() - i,
        {
            assert(views(pieces@).take(i + 1).drop_last() =~= views(pieces@).take(i as int));
            let ghost before = out@;
            push_char(out, ' ');
            push_char(out, ' ');
            push_char(out, ' ');
            push_char(out, ' ');
            push_chars(out, pieces[i].as_slice(), 0, pieces[i].len());
            push_char(out, '\n');
            assert(pieces@[i as int]@.subrange(0, pieces@[i as int]@.len() as int) =~= pieces@[i as int]@);
            assert(out@ =~= before + seq![' ', ' ', ' ', ' '] + views(pieces@)[i as int] + seq!['\n']);
            i += 1;
        }
        assert(views(pieces@).take(pieces@.len() as int) =~= views(pieces@));
    } else {
        push_char(out, ' ');
        push_char(out, '=');
        push_char(out, ' ');
        push_str(out, value);
        push_char(out, '\n');
        assert(out@ =~= start + key@ + seq![' ', '=', ' '] + value@ + seq!['\n']);
    }
}

/// Appends the comment lines of a context.
fn write_context(out: &mut String, ctx: &str)
    ensures
        final(out)@ == old(out)@ + comment_block(str_lines(ctx@)),
{
    let v = chars_of(ctx);
    let lines = split_lines(v.as_slice());
    let ghost start = out@;
    let mut i: usize = 0;
    while i < lines.len()
        invariant
            i <= lines@.len(),
            out@ == start + comment_block(views(lines@).take(i as int)),
        decreases lines@.len() - i,
    {
        assert(views(lines@).take(i + 1).drop_last() =~= views(lines@).take(i as int));
        let ghost before = out@;
        let l = &lines[i];
        if l.len() == 0 {
            push_char(out, '#');
            push_char(out, '\n');
            assert(out@ =~= before + comment_line(views(lines@)[i as int]));
        } else {
            push_char(out, '#');
            push_char(out, ' ');
            push_chars(out, l.as_slice(), 0, l.len());
            push_char(out, '\n');
            assert(l@.subrange(0, l@.len() as int) =~= l@);
            assert(out@ =~= before + comment_line(views(lines@)[i as int]));
        }
        i += 1;
    }
    assert(views(lines@).take(lines@.len() as int) =~= views(lines@));
}

/// The `.ftl` text of `messages`, in ascending key order: each message
/// preceded by its context as `#` comment lines and followed by a blank line.
pub fn render_ftl(messages: &Messages, contexts: &Contexts) -> (out: String)
    requires
        messages.wf(),
        contexts.wf(),
    ensures
        out@ == render_spec(messages.key_seq(), string_views(messages.val_seq()), contexts@),
{
    let mut out = String::new();
    let n = messages.len();
    let mut i: usize = 0;
    while i < n
        invariant
            messages.wf(),
            contexts.wf(),
            n == messages.key_seq().len(),
            i <= n,
            out@ == render_prefix(
                messages.key_seq(),
                string_views(messages.val_seq()),
                contexts@,
                i as int,
            ),
        decreases n - i,
    {
        let key = messages.key_at(i);
        let value = messages.value_at(i);
        let ghost before = out@;
        match contexts.get(key.as_str()) {
            Some(ctx) => write_context(&mut out, ctx.as_str()),
            None => {},
        }
        write_entry(&mut out, key.as_str(), value.as_str());
        push_char(&mut out, '\n');
        assert(string_views(messages.val_seq())[i as int] == value@);
        assert(out@ =~= before + render_entry(key@, value@, contexts@));
        i += 1;
    }
    out
}

} // verus!
