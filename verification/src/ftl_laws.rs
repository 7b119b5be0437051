//! What reading a rendered `.ftl` text gives back.

use vstd::prelude::*;

use crate::ftl::{
    attr_end, body_end, comment_block, comment_line, comment_text, context_of, context_text, drop_empty,
    drop_trailing_empty, entry_text, eq_key, eq_rest, indented_block, indented_end, is_attr_line,
    is_id_char, is_indented, multiline_value, needs_multiline, parse_ftl, parse_lines,
    render_entry, render_prefix, render_spec, starts_with, strip_hashes, valid_ftl_id, Contexts, Messages,
};
use crate::text::{
    first_idx, first_nl, is_ascii_alpha, is_ws, lead_ws, lemma_first_idx_bound,
    lemma_first_idx_is, lemma_join_split, lemma_lead_ws_bound, lemma_lead_ws_concat,
    lemma_lead_ws_is, lemma_lines_append, lemma_lines_one, lemma_split_nonempty,
    lemma_split_pieces, lemma_trail_ws_bound, lemma_trail_ws_concat, lemma_trail_ws_is,
    lemma_trim_commutes, lemma_trim_noop, split_nl, str_lines, string_views, strip_cr, trail_ws, trim,
    trim_end, trim_start,
};

verus! {

/// A piece that ends with a carriage return.
pub open spec fn ends_with_cr(p: Seq<char>) -> bool {
    p.len() > 0 && p.last() == '\r'
}

/// A value that an `.ftl` text carries unchanged: no line of it starts with
/// whitespace or `.` (an attribute) or ends with `'\r'`, its last line is
/// not empty, and a value that stands on the key line does not end with
/// whitespace.
pub open spec fn plain_value(v: Seq<char>) -> bool {
    let ps = split_nl(v);
    &&& v.len() > 0 ==> ps.last().len() > 0
    &&& forall|i: int|
        0 <= i < ps.len() ==> lead_ws(#[trigger] ps[i]) == 0 && !ends_with_cr(ps[i])
            && !starts_with(ps[i], '.')
    &&& !needs_multiline(v) ==> trail_ws(v) == 0
}

/// What a context becomes once written as comments and read back: each
/// line trimmed, empty lines dropped.
pub open spec fn context_norm(c: Seq<char>) -> Seq<char> {
    context_of(str_lines(c).map_values(|l: Seq<char>| trim(l)))
}

/// The contexts read back from the rendering of `msgs` with `ctxs`: the
/// normalized context of each message that has a non-empty one.
pub open spec fn contexts_read_back(
    msgs: Map<Seq<char>, Seq<char>>,
    ctxs: Map<Seq<char>, Seq<char>>,
) -> Map<Seq<char>, Seq<char>> {
    Map::new(
        |k: Seq<char>|
            msgs.contains_key(k) && ctxs.contains_key(k) && context_norm(ctxs[k]).len() > 0,
        |k: Seq<char>| context_norm(ctxs[k]),
    )
}

// ---------------------------------------------------------------------------
// Single lines
// ---------------------------------------------------------------------------

/// The text of a comment line, without its line end.
spec fn comment_body(l: Seq<char>) -> Seq<char> {
    if l.len() == 0 {
        seq!['#']
    } else {
        seq!['#', ' '] + l
    }
}

proof fn lemma_trim_strip_cr(y: Seq<char>)
    ensures
        trim(strip_cr(y)) == trim(y),
{
    if y.len() > 0 && y.last() == '\r' {
        let z = y.drop_last();
        assert(is_ws(y.last()));
        assert(trail_ws(y) == 1 + trail_ws(z));
        lemma_trail_ws_bound(z);
        assert(trim_end(y) =~= trim_end(z));
        lemma_trim_commutes(y);
        lemma_trim_commutes(z);
    }
}

/// A trimmed comment line starts with `#` and reads back as the trimmed line.
proof fn lemma_comment_line_reads(l: Seq<char>)
    ensures
        trim(strip_cr(comment_body(l))).len() > 0,
        trim(strip_cr(comment_body(l)))[0] == '#',
        comment_text(trim(strip_cr(comment_body(l)))) == trim(l),
{
    let y = comment_body(l);
    lemma_trim_strip_cr(y);
    if l.len() == 0 {
        lemma_trim_noop(y);
        assert(strip_hashes(y.drop_first()) == y.drop_first());
        assert(y.drop_first() =~= Seq::<char>::empty());
        lemma_lead_ws_is(Seq::<char>::empty(), 0);
        assert(trim(l) =~= Seq::<char>::empty());
        assert(comment_text(y) =~= trim(l));
    } else {
        let h = seq!['#', ' '];
        lemma_lead_ws_is(y, 0);
        assert(trim_start(y) =~= y);
        lemma_trail_ws_bound(l);
        lemma_trail_ws_concat(h, l);
        if trail_ws(l) < l.len() {
            let t = trim(y);
            assert(t =~= h + trim_end(l));
            assert(t.drop_first()[0] == ' ');
            assert(strip_hashes(t.drop_first()) == t.drop_first());
            assert(strip_hashes(t) == t.drop_first());
            let e = trim_end(l);
            assert(t.drop_first() =~= seq![' '] + e);
            assert(is_ws(seq![' '][0]));
            lemma_lead_ws_is(seq![' '], 1);
            lemma_lead_ws_concat(seq![' '], e);
            lemma_lead_ws_bound(e);
            assert(lead_ws(seq![' '] + e) == 1 + lead_ws(e));
            assert(trim_start(seq![' '] + e) =~= trim_start(e));
            lemma_trim_commutes(l);
        } else {
            assert(is_ws(h[1]));
            assert(!is_ws(h[0]));
            lemma_trail_ws_is(h, 1);
            let t = trim(y);
            assert(t =~= seq!['#']);
            assert(strip_hashes(t.drop_first()) == t.drop_first());
            assert(t.drop_first() =~= Seq::<char>::empty());
            lemma_lead_ws_is(Seq::<char>::empty(), 0);
            assert forall|i: int| 0 <= i < l.len() implies is_ws(#[trigger] l[i]) by {
            }
            lemma_lead_ws_is(l, l.len() as int);
            assert(trim(l) =~= Seq::<char>::empty());
            assert(comment_text(t) =~= trim(l));
        }
    }
}

// ---------------------------------------------------------------------------
// The lines of a rendered message
// ---------------------------------------------------------------------------

/// `x` holds no `c`.
spec fn lacks(x: Seq<char>, c: char) -> bool {
    first_idx(x, c) >= x.len()
}

proof fn lemma_lacks_concat(a: Seq<char>, b: Seq<char>, c: char)
    requires
        lacks(a, c),
        lacks(b, c),
    ensures
        lacks(a + b, c),
{
    lemma_first_idx_bound(a, c);
    lemma_first_idx_bound(b, c);
    let s = a + b;
    assert forall|i: int| 0 <= i < s.len() implies #[trigger] s[i] != c by {
        if i < a.len() {
            assert(s[i] == a[i]);
        } else {
            assert(s[i] == b[i - a.len()]);
        }
    }
    lemma_first_idx_is(s, c, s.len() as int);
}

proof fn lemma_lacks_chars(x: Seq<char>, c: char)
    requires
        forall|i: int| 0 <= i < x.len() ==> #[trigger] x[i] != c,
    ensures
        lacks(x, c),
{
    lemma_first_idx_is(x, c, x.len() as int);
}

proof fn lemma_id_lacks(k: Seq<char>)
    requires
        valid_ftl_id(k),
    ensures
        lacks(k, '\n'),
        lacks(k, '='),
        forall|i: int| 0 <= i < k.len() ==> !is_ws(#[trigger] k[i]),
{
    assert forall|i: int| 0 <= i < k.len() implies #[trigger] k[i] != '\n' && k[i] != '=' && !is_ws(k[i]) by {
        if i > 0 {
            assert(is_id_char(k[i]));
        }
    }
    lemma_lacks_chars(k, '\n');
    lemma_lacks_chars(k, '=');
}

/// No line of `str::lines` holds a `'\n'`.
proof fn lemma_lines_lack_nl(c: Seq<char>)
    ensures
        forall|i: int| 0 <= i < str_lines(c).len() ==> lacks(#[trigger] str_lines(c)[i], '\n'),
    decreases c.len(),
{
    if c.len() > 0 {
        lemma_first_idx_bound(c, '\n');
        let j = first_nl(c) as int;
        if j >= c.len() {
            assert(str_lines(c) =~= seq![c]);
            lemma_lacks_chars(c, '\n');
        } else {
            lemma_lines_lack_nl(c.skip(j + 1));
            let p = c.take(j);
            assert forall|i: int| 0 <= i < p.len() implies #[trigger] p[i] != '\n' by {
                assert(p[i] == c[i]);
            }
            let q = strip_cr(p);
            assert forall|i: int| 0 <= i < q.len() implies #[trigger] q[i] != '\n' by {
                assert(q[i] == p[i]);
            }
            lemma_lacks_chars(q, '\n');
            assert forall|i: int| 0 <= i < str_lines(c).len() implies lacks(#[trigger] str_lines(c)[i], '\n') by {
                if i > 0 {
                    assert(str_lines(c)[i] == str_lines(c.skip(j + 1))[i - 1]);
                }
            }
        }
    }
}

spec fn comment_lines(ls: Seq<Seq<char>>) -> Seq<Seq<char>> {
    ls.map_values(|l: Seq<char>| strip_cr(comment_body(l)))
}

spec fn four_spaces() -> Seq<char> {
    seq![' ', ' ', ' ', ' ']
}

spec fn value_lines(v: Seq<char>) -> Seq<Seq<char>> {
    if v.len() == 0 {
        seq![]
    } else {
        split_nl(v).map_values(|p: Seq<char>| four_spaces() + p)
    }
}

spec fn message_lines(k: Seq<char>, v: Seq<char>) -> Seq<Seq<char>> {
    if needs_multiline(v) {
        seq![k + seq![' ', '=']] + value_lines(v)
    } else {
        seq![k + seq![' ', '=', ' '] + v]
    }
}

spec fn context_lines(k: Seq<char>, ctxs: Map<Seq<char>, Seq<char>>) -> Seq<Seq<char>> {
    if ctxs.contains_key(k) {
        comment_lines(str_lines(ctxs[k]))
    } else {
        seq![]
    }
}

/// The lines of one rendered message.
spec fn entry_lines(k: Seq<char>, v: Seq<char>, ctxs: Map<Seq<char>, Seq<char>>) -> Seq<
    Seq<char>,
> {
    context_lines(k, ctxs) + message_lines(k, v) + seq![Seq::<char>::empty()]
}

proof fn lemma_comment_block_lines(ls: Seq<Seq<char>>)
    requires
        forall|i: int| 0 <= i < ls.len() ==> lacks(#[trigger] ls[i], '\n'),
    ensures
        str_lines(comment_block(ls)) == comment_lines(ls),
        comment_block(ls).len() == 0 || comment_block(ls).last() == '\n',
    decreases ls.len(),
{
    if ls.len() == 0 {
        assert(str_lines(Seq::<char>::empty()) == Seq::<Seq<char>>::empty());
        assert(comment_lines(ls) =~= Seq::<Seq<char>>::empty());
    } else {
        let init = ls.drop_last();
        let l = ls.last();
        assert(lacks(l, '\n'));
        lemma_comment_block_lines(init);
        let body = comment_body(l);
        if l.len() == 0 {
            lemma_lacks_chars(body, '\n');
        } else {
            lemma_lacks_chars(seq!['#', ' '], '\n');
            lemma_lacks_concat(seq!['#', ' '], l, '\n');
        }
        assert(comment_line(l) =~= body + seq!['\n']);
        lemma_lines_one(body);
        lemma_lines_append(comment_block(init), comment_line(l));
        assert(comment_lines(ls) =~= comment_lines(init).push(strip_cr(body)));
    }
}

proof fn lemma_indented_block_lines(ls: Seq<Seq<char>>)
    requires
        forall|i: int| 0 <= i < ls.len() ==> lacks(#[trigger] ls[i], '\n') && !ends_with_cr(ls[i]),
    ensures
        str_lines(indented_block(ls)) == ls.map_values(|p: Seq<char>| four_spaces() + p),
        indented_block(ls).len() == 0 || indented_block(ls).last() == '\n',
    decreases ls.len(),
{
    if ls.len() == 0 {
        assert(str_lines(Seq::<char>::empty()) == Seq::<Seq<char>>::empty());
        assert(ls.map_values(|p: Seq<char>| four_spaces() + p) =~= Seq::<Seq<char>>::empty());
    } else {
        let init = ls.drop_last();
        let l = ls.last();
        assert(lacks(l, '\n') && !ends_with_cr(l));
        lemma_indented_block_lines(init);
        let body = four_spaces() + l;
        lemma_lacks_chars(four_spaces(), '\n');
        lemma_lacks_concat(four_spaces(), l, '\n');
        assert(indented_block(ls) =~= indented_block(init) + (body + seq!['\n']));
        lemma_lines_one(body);
        assert(strip_cr(body) == body);
        lemma_lines_append(indented_block(init), body + seq!['\n']);
        assert(ls.map_values(|p: Seq<char>| four_spaces() + p) =~= init.map_values(
            |p: Seq<char>| four_spaces() + p,
        ).push(body));
    }
}

proof fn lemma_entry_text_lines(k: Seq<char>, v: Seq<char>)
    requires
        valid_ftl_id(k),
        plain_value(v),
    ensures
        str_lines(entry_text(k, v)) == message_lines(k, v),
        entry_text(k, v).last() == '\n',
{
    lemma_id_lacks(k);
    lemma_split_pieces(v);
    lemma_split_nonempty(v);
    let ps = split_nl(v);
    if needs_multiline(v) {
        let head = k + seq![' ', '=', '\n'];
        let x = k + seq![' ', '='];
        lemma_lacks_chars(seq![' ', '='], '\n');
        lemma_lacks_concat(k, seq![' ', '='], '\n');
        lemma_lines_one(x);
        assert(head =~= x + seq!['\n']);
        assert(strip_cr(x) == x);
        if v.len() == 0 {
            assert(entry_text(k, v) =~= head);
            assert(message_lines(k, v) =~= seq![x]);
        } else {
            assert forall|i: int| 0 <= i < ps.len() implies lacks(#[trigger] ps[i], '\n') && !ends_with_cr(ps[i]) by {
            }
            lemma_indented_block_lines(ps);
            lemma_lines_append(head, indented_block(ps));
            assert(entry_text(k, v) == head + indented_block(ps));
            assert(indented_block(ps).len() > 0);
            assert(message_lines(k, v) =~= seq![x] + value_lines(v));
        }
    } else {
        let x = k + seq![' ', '=', ' '] + v;
        assert(ps =~= seq![v]);
        assert(lacks(ps[0], '\n'));
        lemma_lacks_chars(seq![' ', '=', ' '], '\n');
        lemma_lacks_concat(k, seq![' ', '=', ' '], '\n');
        lemma_lacks_concat(k + seq![' ', '=', ' '], v, '\n');
        lemma_lines_one(x);
        lemma_trail_ws_bound(v);
        assert(!is_ws(v.last()));
        assert(strip_cr(x) == x);
        assert(entry_text(k, v) =~= x + seq!['\n']);
    }
}

/// The lines of one rendered message.
proof fn lemma_render_entry_lines(k: Seq<char>, v: Seq<char>, ctxs: Map<Seq<char>, Seq<char>>)
    requires
        valid_ftl_id(k),
        plain_value(v),
    ensures
        str_lines(render_entry(k, v, ctxs)) == entry_lines(k, v, ctxs),
        render_entry(k, v, ctxs).last() == '\n',
{
    let c = context_text(k, ctxs);
    if ctxs.contains_key(k) {
        lemma_lines_lack_nl(ctxs[k]);
        lemma_comment_block_lines(str_lines(ctxs[k]));
    } else {
        assert(str_lines(c) == Seq::<Seq<char>>::empty());
    }
    lemma_entry_text_lines(k, v);
    let e = entry_text(k, v);
    lemma_lines_append(c, e + seq!['\n']);
    lemma_lines_append(e, seq!['\n']);
    lemma_lines_one(Seq::<char>::empty());
    lemma_lacks_chars(Seq::<char>::empty(), '\n');
    assert(seq!['\n'] =~= Seq::<char>::empty() + seq!['\n']);
    assert(strip_cr(Seq::<char>::empty()) == Seq::<char>::empty());
    assert(render_entry(k, v, ctxs) =~= c + (e + seq!['\n']));
    assert(entry_lines(k, v, ctxs) =~= str_lines(c) + (str_lines(e) + seq![Seq::<char>::empty()]));
}

// ---------------------------------------------------------------------------
// Reading one rendered message back
// ---------------------------------------------------------------------------

proof fn lemma_trim_empty()
    ensures
        trim(Seq::<char>::empty()) == Seq::<char>::empty(),
        trim_start(Seq::<char>::empty()) == Seq::<char>::empty(),
        !is_indented(Seq::<char>::empty()),
        !is_attr_line(Seq::<char>::empty()),
{
    lemma_lead_ws_is(Seq::<char>::empty(), 0);
    assert(trim_start(Seq::<char>::empty()) =~= Seq::<char>::empty());
    assert(trim(Seq::<char>::empty()) =~= Seq::<char>::empty());
}

/// The comment lines of a context add the trimmed lines to the pending comments.
proof fn lemma_read_comments(
    lines: Seq<Seq<char>>,
    s: int,
    ls: Seq<Seq<char>>,
    t: int,
    msgs: Map<Seq<char>, Seq<char>>,
    ctxs: Map<Seq<char>, Seq<char>>,
)
    requires
        0 <= s,
        0 <= t <= ls.len(),
        s + ls.len() <= lines.len(),
        lines.subrange(s, s + ls.len()) == comment_lines(ls),
    ensures
        parse_lines(lines, s + t, ls.map_values(|l: Seq<char>| trim(l)).take(t), msgs, ctxs)
            == parse_lines(lines, s + ls.len(), ls.map_values(|l: Seq<char>| trim(l)), msgs, ctxs),
    decreases ls.len() - t,
{
    let tr = ls.map_values(|l: Seq<char>| trim(l));
    if t == ls.len() {
        assert(tr.take(t) =~= tr);
    } else {
        let l = ls[t];
        assert(lines[s + t] == comment_lines(ls)[t]);
        assert(lines[s + t] == strip_cr(comment_body(l)));
        lemma_comment_line_reads(l);
        let tt = trim(lines[s + t]);
        assert(tt.len() > 0 && tt[0] == '#');
        assert(tr.take(t).push(comment_text(tt)) =~= tr.take(t + 1));
        lemma_read_comments(lines, s, ls, t + 1, msgs, ctxs);
    }
}

proof fn lemma_indented_run(lines: Seq<Seq<char>>, a: int, b: int)
    requires
        0 <= a <= b < lines.len(),
        forall|i: int| a <= i < b ==> is_indented(#[trigger] lines[i]) && !is_attr_line(lines[i]),
        !is_indented(lines[b]),
    ensures
        indented_end(lines, a) == b,
    decreases b - a,
{
    if a < b {
        lemma_indented_run(lines, a + 1, b);
    }
}

/// An indented line of a plain value is no attribute line.
proof fn lemma_value_line_no_attr(p: Seq<char>)
    requires
        lead_ws(p) == 0,
        !starts_with(p, '.'),
    ensures
        !is_attr_line(four_spaces() + p),
{
    let l = four_spaces() + p;
    lemma_lead_ws_is(four_spaces(), 4);
    lemma_lead_ws_concat(four_spaces(), p);
    lemma_lead_ws_bound(p);
    assert(trim_start(l) =~= p);
    lemma_trail_ws_bound(p);
    if p.len() > 0 {
        assert(!is_ws(p[0]));
        if trail_ws(p) == p.len() {
            assert(is_ws(p[0]));
        }
        assert(trim(l) == trim_end(p));
        assert(trim_end(p)[0] == p[0]);
    } else {
        assert(trim_end(p) =~= p);
    }
}

proof fn lemma_key_trim(k: Seq<char>)
    requires
        valid_ftl_id(k),
    ensures
        trim(k + seq![' ']) == k,
{
    lemma_id_lacks(k);
    let y = k + seq![' '];
    assert(y[0] == k[0]);
    lemma_lead_ws_is(y, 0);
    assert(trim_start(y) =~= y);
    assert(y[k.len() as int - 1] == k[k.len() - 1]);
    assert(is_ws(y[k.len() as int]));
    assert forall|i: int| k.len() <= i < y.len() implies is_ws(#[trigger] y[i]) by {
    }
    lemma_trail_ws_is(y, k.len() as int);
    assert(trim_end(y) =~= k);
}

/// The contexts after one message is read.
spec fn contexts_after(
    k: Seq<char>,
    ctxs: Map<Seq<char>, Seq<char>>,
    read: Map<Seq<char>, Seq<char>>,
) -> Map<Seq<char>, Seq<char>> {
    if ctxs.contains_key(k) && context_norm(ctxs[k]).len() > 0 {
        read.insert(k, context_norm(ctxs[k]))
    } else {
        read
    }
}

/// Reading the lines of one rendered message adds it to what was read.
proof fn lemma_read_entry(
    lines: Seq<Seq<char>>,
    s: int,
    k: Seq<char>,
    v: Seq<char>,
    ctxs: Map<Seq<char>, Seq<char>>,
    msgs: Map<Seq<char>, Seq<char>>,
    read: Map<Seq<char>, Seq<char>>,
)
    requires
        valid_ftl_id(k),
        plain_value(v),
        0 <= s,
        s + entry_lines(k, v, ctxs).len() <= lines.len(),
        lines.subrange(s, s + entry_lines(k, v, ctxs).len()) == entry_lines(k, v, ctxs),
    ensures
        parse_lines(lines, s, seq![], msgs, read) == parse_lines(
            lines,
            s + entry_lines(k, v, ctxs).len(),
            seq![],
            msgs.insert(k, v),
            contexts_after(k, ctxs, read),
        ),
{
    let e = entry_lines(k, v, ctxs);
    let cl = context_lines(k, ctxs);
    let ml = message_lines(k, v);
    let q = cl.len() as int;
    lemma_id_lacks(k);
    lemma_trim_empty();
    // the comment lines
    let ls = if ctxs.contains_key(k) {
        str_lines(ctxs[k])
    } else {
        Seq::<Seq<char>>::empty()
    };
    let tr = ls.map_values(|l: Seq<char>| trim(l));
    assert(cl == comment_lines(ls));
    assert(cl.len() == ls.len());
    assert(lines.subrange(s, s + ls.len()) =~= cl) by {
        assert forall|i: int| 0 <= i < ls.len() implies lines.subrange(s, s + ls.len())[i] == cl[i] by {
            assert(lines[s + i] == e[i]);
        }
    }
    lemma_read_comments(lines, s, ls, 0, msgs, read);
    assert(tr.take(0) =~= Seq::<Seq<char>>::empty());
    assert(s + 0 == s);
    // the pending comments give the context
    if ctxs.contains_key(k) {
        assert(context_of(tr) == context_norm(ctxs[k]));
    } else {
        assert(tr =~= Seq::<Seq<char>>::empty());
        assert(drop_empty(tr) =~= Seq::<Seq<char>>::empty());
        assert(context_of(tr).len() == 0);
    }
    let ctx = context_of(tr);
    let read2 = contexts_after(k, ctxs, read);
    assert(read2 == if ctx.len() > 0 {
        read.insert(k, ctx)
    } else {
        read
    });
    // the message line
    let j = s + q;
    let x = ml[0];
    assert(lines[j] == e[q]);
    assert(e[q] == x);
    assert(x[0] == k[0]);
    assert(is_ascii_alpha(k[0]));
    lemma_split_pieces(v);
    lemma_split_nonempty(v);
    let ps = split_nl(v);
    if needs_multiline(v) {
        assert(x == k + seq![' ', '=']);
        lemma_trim_noop(x);
        lemma_first_idx_is(x, '=', k.len() as int + 1);
        assert(x.take(k.len() as int + 1) =~= k + seq![' ']);
        lemma_key_trim(k);
        assert(x.skip(k.len() as int + 2) =~= Seq::<char>::empty());
        assert(eq_rest(x).len() == 0);
        let vl = value_lines(v);
        let b = j + 1 + vl.len();
        assert(e.len() == q + 1 + vl.len() + 1);
        assert(lines[b] == e[q + 1 + vl.len()]);
        assert(lines[b] == Seq::<char>::empty());
        assert forall|i: int| j + 1 <= i < b implies is_indented(#[trigger] lines[i])
            && !is_attr_line(lines[i]) by {
            assert(lines[i] == e[i - s]);
            assert(e[i - s] == vl[i - j - 1]);
            assert(vl[i - j - 1] == four_spaces() + ps[i - j - 1]);
            assert((four_spaces() + ps[i - j - 1])[0] == ' ');
            lemma_value_line_no_attr(ps[i - j - 1]);
        }
        lemma_indented_run(lines, j + 1, b);
        let parts = lines.subrange(j + 1, b).map_values(|l: Seq<char>| trim_start(l));
        if v.len() == 0 {
            assert(parts =~= Seq::<Seq<char>>::empty());
            assert(drop_trailing_empty(parts) == parts);
            assert(multiline_value(lines, j + 1) =~= v);
        } else {
            assert(parts =~= ps) by {
                assert forall|i: int| 0 <= i < ps.len() implies parts[i] == ps[i] by {
                    assert(lines[j + 1 + i] == e[q + 1 + i]);
                    assert(lines[j + 1 + i] == four_spaces() + ps[i]);
                    let p = ps[i];
                    assert(lead_ws(p) == 0);
                    lemma_lead_ws_is(four_spaces(), 4);
                    lemma_lead_ws_concat(four_spaces(), p);
                    lemma_lead_ws_bound(p);
                    assert(trim_start(four_spaces() + p) =~= p);
                }
            }
            assert(ps.last().len() > 0);
            assert(drop_trailing_empty(parts) == parts);
            lemma_join_split(v);
            assert(multiline_value(lines, j + 1) == v);
        }
        assert(attr_end(lines, b) == b);
        assert(parse_lines(lines, j, tr, msgs, read) == parse_lines(lines, b, seq![], msgs.insert(k, v), read2)) by {
            assert(trim(lines[j]) == x);
            assert(x.len() > 0 && x[0] != '#' && x[0] != '-' && x[0] != '.');
            assert(first_idx(x, '=') < x.len());
            assert(eq_key(x) == k);
        }
        assert(parse_lines(lines, b, seq![], msgs.insert(k, v), read2) == parse_lines(lines, b + 1, seq![], msgs.insert(k, v), read2));
        assert(b + 1 == s + e.len());
    } else {
        assert(x == k + seq![' ', '=', ' '] + v);
        assert(ps =~= seq![v]);
        assert(lead_ws(v) == 0);
        lemma_trail_ws_bound(v);
        lemma_lead_ws_bound(v);
        assert(!is_ws(v.last()));
        assert(x.last() == v.last());
        lemma_trim_noop(x);
        assert forall|i: int| 0 <= i < k.len() + 1 implies #[trigger] x[i] != '=' by {
            if i < k.len() {
                assert(x[i] == k[i]);
            }
        }
        lemma_first_idx_is(x, '=', k.len() as int + 1);
        assert(x.take(k.len() as int + 1) =~= k + seq![' ']);
        lemma_key_trim(k);
        assert(x.skip(k.len() as int + 2) =~= seq![' '] + v);
        assert(is_ws(seq![' '][0]));
        lemma_lead_ws_is(seq![' '], 1);
        lemma_lead_ws_concat(seq![' '], v);
        assert(eq_rest(x) =~= v);
        let b = j + 1;
        assert(e.len() == q + 2);
        assert(lines[b] == e[q + 1]);
        assert(lines[b] == Seq::<char>::empty());
        assert(attr_end(lines, b) == b);
        assert(parse_lines(lines, j, tr, msgs, read) == parse_lines(lines, b, seq![], msgs.insert(k, v), read2)) by {
            assert(trim(lines[j]) == x);
            assert(x.len() > 0 && x[0] != '#' && x[0] != '-' && x[0] != '.');
            assert(first_idx(x, '=') < x.len());
            assert(eq_key(x) == k);
        }
        assert(parse_lines(lines, b, seq![], msgs.insert(k, v), read2) == parse_lines(lines, b + 1, seq![], msgs.insert(k, v), read2));
        assert(b + 1 == s + e.len());
    }
}

// ---------------------------------------------------------------------------
// Reading a whole rendered text back
// ---------------------------------------------------------------------------

/// The messages that the first `n` entries give.
spec fn prefix_msgs(keys: Seq<Seq<char>>, vals: Seq<Seq<char>>, n: int) -> Map<
    Seq<char>,
    Seq<char>,
>
    decreases n,
{
    if n <= 0 {
        Map::empty()
    } else {
        prefix_msgs(keys, vals, n - 1).insert(keys[n - 1], vals[n - 1])
    }
}

/// The contexts that the first `n` entries give.
spec fn prefix_ctxs(keys: Seq<Seq<char>>, ctxs: Map<Seq<char>, Seq<char>>, n: int) -> Map<
    Seq<char>,
    Seq<char>,
>
    decreases n,
{
    if n <= 0 {
        Map::empty()
    } else {
        contexts_after(keys[n - 1], ctxs, prefix_ctxs(keys, ctxs, n - 1))
    }
}

/// Every entry can be written and read back.
spec fn entries_ok(keys: Seq<Seq<char>>, vals: Seq<Seq<char>>) -> bool {
    &&& keys.len() == vals.len()
    &&& forall|i: int| 0 <= i < keys.len() ==> valid_ftl_id(#[trigger] keys[i]) && plain_value(vals[i])
}

proof fn lemma_prefix_lines(
    keys: Seq<Seq<char>>,
    vals: Seq<Seq<char>>,
    ctxs: Map<Seq<char>, Seq<char>>,
    n: int,
)
    requires
        entries_ok(keys, vals),
        0 < n <= keys.len(),
    ensures
        str_lines(render_prefix(keys, vals, ctxs, n)) == str_lines(
            render_prefix(keys, vals, ctxs, n - 1),
        ) + entry_lines(keys[n - 1], vals[n - 1], ctxs),
        render_prefix(keys, vals, ctxs, n).last() == '\n',
    decreases n,
{
    assert(valid_ftl_id(keys[n - 1]));
    lemma_render_entry_lines(keys[n - 1], vals[n - 1], ctxs);
    if n > 1 {
        lemma_prefix_lines(keys, vals, ctxs, n - 1);
    }
    lemma_lines_append(
        render_prefix(keys, vals, ctxs, n - 1),
        render_entry(keys[n - 1], vals[n - 1], ctxs),
    );
}

/// The lines of a shorter prefix begin the lines of a longer one.
proof fn lemma_prefix_lines_prefix(
    keys: Seq<Seq<char>>,
    vals: Seq<Seq<char>>,
    ctxs: Map<Seq<char>, Seq<char>>,
    m: int,
    n: int,
)
    requires
        entries_ok(keys, vals),
        0 <= m <= n <= keys.len(),
    ensures
        str_lines(render_prefix(keys, vals, ctxs, m)).len() <= str_lines(
            render_prefix(keys, vals, ctxs, n),
        ).len(),
        str_lines(render_prefix(keys, vals, ctxs, n)).subrange(
            0,
            str_lines(render_prefix(keys, vals, ctxs, m)).len() as int,
        ) == str_lines(render_prefix(keys, vals, ctxs, m)),
    decreases n - m,
{
    let lm = str_lines(render_prefix(keys, vals, ctxs, m));
    let ln = str_lines(render_prefix(keys, vals, ctxs, n));
    if m == n {
        assert(ln.subrange(0, lm.len() as int) =~= lm);
    } else {
        lemma_prefix_lines_prefix(keys, vals, ctxs, m, n - 1);
        lemma_prefix_lines(keys, vals, ctxs, n);
        let lp = str_lines(render_prefix(keys, vals, ctxs, n - 1));
        assert(ln.subrange(0, lm.len() as int) =~= lp.subrange(0, lm.len() as int));
    }
}

/// Reading the first `n` entries.
proof fn lemma_read_prefix(
    keys: Seq<Seq<char>>,
    vals: Seq<Seq<char>>,
    ctxs: Map<Seq<char>, Seq<char>>,
    n: int,
)
    requires
        entries_ok(keys, vals),
        0 <= n <= keys.len(),
    ensures
        parse_ftl(render_spec(keys, vals, ctxs)) == parse_lines(
            str_lines(render_spec(keys, vals, ctxs)),
            str_lines(render_prefix(keys, vals, ctxs, n)).len() as int,
            seq![],
            prefix_msgs(keys, vals, n),
            prefix_ctxs(keys, ctxs, n),
        ),
    decreases n,
{
    let all = str_lines(render_spec(keys, vals, ctxs));
    if n == 0 {
        assert(render_prefix(keys, vals, ctxs, 0) == Seq::<char>::empty());
        assert(str_lines(Seq::<char>::empty()).len() == 0);
    } else {
        lemma_read_prefix(keys, vals, ctxs, n - 1);
        lemma_prefix_lines(keys, vals, ctxs, n);
        lemma_prefix_lines_prefix(keys, vals, ctxs, n, keys.len() as int);
        let lp = str_lines(render_prefix(keys, vals, ctxs, n - 1));
        let ln = str_lines(render_prefix(keys, vals, ctxs, n));
        let e = entry_lines(keys[n - 1], vals[n - 1], ctxs);
        let start = lp.len() as int;
        assert(all.subrange(start, start + e.len()) =~= e) by {
            assert forall|i: int| 0 <= i < e.len() implies all.subrange(start, start + e.len())[i]
                == e[i] by {
                assert(all[start + i] == ln[start + i]);
                assert(ln[start + i] == e[i]);
            }
        }
        assert(valid_ftl_id(keys[n - 1]));
        lemma_read_entry(
            all,
            start,
            keys[n - 1],
            vals[n - 1],
            ctxs,
            prefix_msgs(keys, vals, n - 1),
            prefix_ctxs(keys, ctxs, n - 1),
        );
    }
}

/// With distinct keys, the `n` entries give each key its value.
proof fn lemma_prefix_msgs(keys: Seq<Seq<char>>, vals: Seq<Seq<char>>, n: int)
    requires
        0 <= n <= keys.len(),
        keys.len() == vals.len(),
        keys.no_duplicates(),
    ensures
        forall|i: int| 0 <= i < n ==> prefix_msgs(keys, vals, n).contains_key(#[trigger] keys[i]) && prefix_msgs(keys, vals, n)[keys[i]] == vals[i],
        forall|k: Seq<char>| #[trigger] prefix_msgs(keys, vals, n).contains_key(k) ==> keys.take(n).contains(k),
    decreases n,
{
    if n > 0 {
        lemma_prefix_msgs(keys, vals, n - 1);
        assert forall|k: Seq<char>| #[trigger] prefix_msgs(keys, vals, n).contains_key(k) implies keys.take(n).contains(k) by {
            if k == keys[n - 1] {
                assert(keys.take(n)[n - 1] == k);
            } else {
                assert(prefix_msgs(keys, vals, n - 1).contains_key(k));
                assert(keys.take(n - 1).contains(k));
                let i = choose|i: int| 0 <= i < keys.take(n - 1).len() && #[trigger] keys.take(n - 1)[i] == k;
                assert(keys.take(n - 1)[i] == keys[i]);
                assert(keys.take(n)[i] == keys[i]);
            }
        }
    }
}

/// With distinct keys, the `n` entries give each key with a non-empty
/// normalized context that context.
proof fn lemma_prefix_ctxs(keys: Seq<Seq<char>>, ctxs: Map<Seq<char>, Seq<char>>, n: int)
    requires
        0 <= n <= keys.len(),
        keys.no_duplicates(),
    ensures
        forall|k: Seq<char>| #[trigger] prefix_ctxs(keys, ctxs, n).contains_key(k) <==> (keys.take(n).contains(k) && ctxs.contains_key(k) && context_norm(ctxs[k]).len() > 0),
        forall|k: Seq<char>| #[trigger] prefix_ctxs(keys, ctxs, n).contains_key(k) ==> prefix_ctxs(keys, ctxs, n)[k] == context_norm(ctxs[k]),
    decreases n,
{
    if n > 0 {
        lemma_prefix_ctxs(keys, ctxs, n - 1);
        let prev = prefix_ctxs(keys, ctxs, n - 1);
        let cur = prefix_ctxs(keys, ctxs, n);
        let last = keys[n - 1];
        assert(cur == contexts_after(last, ctxs, prev));
        assert forall|k: Seq<char>| #[trigger] cur.contains_key(k) <==> (keys.take(n).contains(k) && ctxs.contains_key(k) && context_norm(ctxs[k]).len() > 0) by {
            if keys.take(n).contains(k) && k != last {
                let i = choose|i: int| 0 <= i < keys.take(n).len() && #[trigger] keys.take(n)[i] == k;
                assert(keys.take(n)[i] == keys[i]);
                assert(i != n - 1);
                assert(keys.take(n - 1)[i] == keys[i]);
                assert(keys.take(n - 1).contains(k));
            }
            if keys.take(n - 1).contains(k) {
                let i = choose|i: int| 0 <= i < keys.take(n - 1).len() && #[trigger] keys.take(n - 1)[i] == k;
                assert(keys.take(n - 1)[i] == keys[i]);
                assert(keys.take(n)[i] == keys[i]);
            }
            if k == last {
                assert(keys.take(n)[n - 1] == k);
            }
        }
        assert forall|k: Seq<char>| #[trigger] cur.contains_key(k) implies cur[k] == context_norm(ctxs[k]) by {
            if k != last {
                assert(prev.contains_key(k));
            }
        }
    }
}

/// Reading back the rendering of `messages` with `contexts` gives the
/// messages back, and for each message the normalized form of its context
/// (each line trimmed, empty lines dropped) when that is not empty. It holds
/// when every key is a valid identifier and every value is plain: no line of
/// it starts with whitespace or ends with `'\r'`, its last line is not
/// empty, and a one-line value does not end with whitespace.
pub proof fn lemma_render_parse_roundtrip(messages: Messages, contexts: Contexts)
    requires
        messages.wf(),
        contexts.wf(),
        forall|k: Seq<char>| #[trigger]
            messages@.contains_key(k) ==> valid_ftl_id(k) && plain_value(messages@[k]),
    ensures
        parse_ftl(
            render_spec(messages.key_seq(), string_views(messages.val_seq()), contexts@),
        ).0 == messages@,
        parse_ftl(
            render_spec(messages.key_seq(), string_views(messages.val_seq()), contexts@),
        ).1 == contexts_read_back(messages@, contexts@),
{
    let keys = messages.key_seq();
    let vals = string_views(messages.val_seq());
    let ctxs = contexts@;
    messages.lemma_view();
    assert(entries_ok(keys, vals)) by {
        assert forall|i: int| 0 <= i < keys.len() implies valid_ftl_id(#[trigger] keys[i])
            && plain_value(vals[i]) by {
            assert(messages@.contains_key(keys[i]));
        }
    }
    assert(keys.no_duplicates()) by {
        assert forall|i: int, j: int| 0 <= i < keys.len() && 0 <= j < keys.len() && i != j implies keys[i] != keys[j] by {
            if i < j {
                assert(crate::text::seq_lt(keys[i], keys[j]));
            } else {
                assert(crate::text::seq_lt(keys[j], keys[i]));
            }
            crate::text::lemma_lt_irreflexive(keys[i]);
        }
    }
    let n = keys.len() as int;
    lemma_read_prefix(keys, vals, ctxs, n);
    let all = str_lines(render_spec(keys, vals, ctxs));
    assert(render_prefix(keys, vals, ctxs, n) == render_spec(keys, vals, ctxs));
    lemma_prefix_msgs(keys, vals, n);
    lemma_prefix_ctxs(keys, ctxs, n);
    assert(keys.take(n) =~= keys);
    assert(prefix_msgs(keys, vals, n) =~= messages@) by {
        assert forall|k: Seq<char>| #[trigger] messages@.contains_key(k) implies prefix_msgs(keys, vals, n).contains_key(k) && prefix_msgs(keys, vals, n)[k] == messages@[k] by {
            let i = choose|i: int| 0 <= i < keys.len() && #[trigger] keys[i] == k;
            assert(keys[i] == k);
        }
    }
    assert(prefix_ctxs(keys, ctxs, n) =~= contexts_read_back(messages@, ctxs));
}

// ---------------------------------------------------------------------------
// Identifiers and single lines
// ---------------------------------------------------------------------------

/// An ASCII letter.
pub open spec fn letter(c: char) -> bool {
    ('a' <= c && c <= 'z') || ('A' <= c && c <= 'Z')
}

/// An identifier spelled out: an ASCII letter, then ASCII letters, digits,
/// `_` and `-`, of any length.
pub open spec fn ascii_id(k: Seq<char>) -> bool {
    &&& k.len() > 0
    &&& letter(k[0])
    &&& forall|i: int|
        1 <= i < k.len() ==> letter(#[trigger] k[i]) || ('0' <= k[i] && k[i] <= '9') || k[i] == '_'
            || k[i] == '-'
}

/// A value that fits on the key line: not empty, no line end, and no
/// whitespace at either end.
pub open spec fn one_line_value(v: Seq<char>) -> bool {
    &&& v.len() > 0
    &&& forall|i: int| 0 <= i < v.len() ==> #[trigger] v[i] != '\n'
    &&& !is_ws(v[0])
    &&& !is_ws(v.last())
}

proof fn lemma_char_ranges(c: char)
    ensures
        ('a' <= c && c <= 'z') <==> (0x61 <= (c as u32) && (c as u32) <= 0x7a),
        ('A' <= c && c <= 'Z') <==> (0x41 <= (c as u32) && (c as u32) <= 0x5a),
        ('0' <= c && c <= '9') <==> (0x30 <= (c as u32) && (c as u32) <= 0x39),
{
    assert(('a' as u32) == 0x61);
    assert(('z' as u32) == 0x7a);
    assert(('A' as u32) == 0x41);
    assert(('Z' as u32) == 0x5a);
    assert(('0' as u32) == 0x30);
    assert(('9' as u32) == 0x39);
}

/// A string is a valid message identifier exactly when it is not empty,
/// starts with an ASCII letter and goes on with ASCII letters, digits, `_`
/// and `-`, whatever its length.
pub proof fn lemma_valid_id_is_ascii_id(s: Seq<char>)
    ensures
        valid_ftl_id(s) <==> {
            &&& s.len() > 0
            &&& (('a' <= s[0] && s[0] <= 'z') || ('A' <= s[0] && s[0] <= 'Z'))
            &&& forall|i: int|
                1 <= i < s.len() ==> ('a' <= #[trigger] s[i] && s[i] <= 'z') || ('A' <= s[i] && s[i]
                    <= 'Z') || ('0' <= s[i] && s[i] <= '9') || s[i] == '_' || s[i] == '-'
        },
{
    if s.len() > 0 {
        lemma_char_ranges(s[0]);
        assert(is_ascii_alpha(s[0]) <==> letter(s[0]));
        assert forall|i: int| 1 <= i < s.len() implies is_id_char(#[trigger] s[i]) <==> (letter(s[i])
            || ('0' <= s[i] && s[i] <= '9') || s[i] == '_' || s[i] == '-') by {
            lemma_char_ranges(s[i]);
        }
    }
}

/// A string of `n >= 1` times `a` is a valid identifier, however long.
pub proof fn lemma_long_ids_valid(n: nat)
    requires
        n >= 1,
    ensures
        valid_ftl_id(Seq::new(n, |i: int| 'a')),
{
    lemma_valid_id_is_ascii_id(Seq::new(n, |i: int| 'a'));
}

proof fn lemma_ascii_id_valid(k: Seq<char>)
    requires
        ascii_id(k),
    ensures
        valid_ftl_id(k),
        forall|i: int| 0 <= i < k.len() ==> !is_ws(#[trigger] k[i]) && k[i] != '\n' && k[i] != '=',
        k[0] != '#' && k[0] != '-' && k[0] != '.',
{
    lemma_valid_id_is_ascii_id(k);
    assert forall|i: int| 0 <= i < k.len() implies !is_ws(#[trigger] k[i]) && k[i] != '\n' && k[i]
        != '=' by {
        if i > 0 {
            assert(letter(k[i]) || ('0' <= k[i] && k[i] <= '9') || k[i] == '_' || k[i] == '-');
        }
    }
}

/// A message line: `k=v`, or `k = v` when `spaced`.
spec fn message_line(k: Seq<char>, v: Seq<char>, spaced: bool) -> Seq<char> {
    if spaced {
        k + seq![' ', '=', ' '] + v
    } else {
        k + seq!['='] + v
    }
}

/// Trimming keeps the first char when it is no whitespace.
proof fn lemma_trim_first(l: Seq<char>)
    requires
        l.len() > 0,
        !is_ws(l[0]),
    ensures
        trim(l).len() > 0,
        trim(l)[0] == l[0],
{
    lemma_lead_ws_is(l, 0);
    assert(trim_start(l) =~= l);
    lemma_trail_ws_bound(l);
    if trail_ws(l) == l.len() {
        assert(is_ws(l[0]));
    }
}

proof fn lemma_message_line(k: Seq<char>, v: Seq<char>, spaced: bool)
    requires
        ascii_id(k),
        one_line_value(v),
    ensures
        lacks(message_line(k, v, spaced), '\n'),
        strip_cr(message_line(k, v, spaced)) == message_line(k, v, spaced),
        trim(message_line(k, v, spaced)) == message_line(k, v, spaced),
        message_line(k, v, spaced)[0] == k[0],
        first_idx(message_line(k, v, spaced), '=') < message_line(k, v, spaced).len(),
        eq_key(message_line(k, v, spaced)) == k,
        eq_rest(message_line(k, v, spaced)) == v,
{
    lemma_ascii_id_valid(k);
    let x = message_line(k, v, spaced);
    let sep = if spaced {
        seq![' ', '=', ' ']
    } else {
        seq!['=']
    };
    assert(x == k + sep + v);
    let e: int = if spaced {
        k.len() as int + 1
    } else {
        k.len() as int
    };
    assert forall|i: int| 0 <= i < x.len() implies #[trigger] x[i] != '\n' by {
        if i >= k.len() + sep.len() {
            assert(x[i] == v[i - k.len() - sep.len()]);
        } else if i < k.len() {
            assert(x[i] == k[i]);
        }
    }
    lemma_lacks_chars(x, '\n');
    assert(x.last() == v.last());
    assert(is_ws('\r'));
    assert(x[0] == k[0]);
    lemma_trim_noop(x);
    assert forall|i: int| 0 <= i < e implies #[trigger] x[i] != '=' by {
        if i < k.len() {
            assert(x[i] == k[i]);
        }
    }
    lemma_first_idx_is(x, '=', e);
    if spaced {
        assert(x.take(e) =~= k + seq![' ']);
        lemma_key_trim(k);
        assert(x.skip(e + 1) =~= seq![' '] + v);
        lemma_lead_ws_is(seq![' '], 1);
        lemma_lead_ws_concat(seq![' '], v);
        lemma_lead_ws_is(v, 0);
        assert(trim_start(seq![' '] + v) =~= v);
    } else {
        assert(x.take(e) =~= k);
        lemma_trim_noop(k);
        assert(x.skip(e + 1) =~= v);
        lemma_lead_ws_is(v, 0);
        assert(trim_start(v) =~= v);
    }
}

/// Reading a message line adds the message, with the pending comments as
/// its context, and goes on past its attribute lines.
proof fn lemma_read_message_line(
    lines: Seq<Seq<char>>,
    i: int,
    pending: Seq<Seq<char>>,
    msgs: Map<Seq<char>, Seq<char>>,
    ctxs: Map<Seq<char>, Seq<char>>,
    k: Seq<char>,
    v: Seq<char>,
    spaced: bool,
)
    requires
        0 <= i < lines.len(),
        lines[i] == message_line(k, v, spaced),
        ascii_id(k),
        one_line_value(v),
    ensures
        parse_lines(lines, i, pending, msgs, ctxs) == parse_lines(
            lines,
            attr_end(lines, i + 1),
            seq![],
            msgs.insert(k, v),
            if context_of(pending).len() > 0 {
                ctxs.insert(k, context_of(pending))
            } else {
                ctxs
            },
        ),
{
    lemma_message_line(k, v, spaced);
    lemma_ascii_id_valid(k);
    let x = message_line(k, v, spaced);
    assert(trim(lines[i]) == x);
    assert(x.len() > 0 && x[0] != '#' && x[0] != '-' && x[0] != '.');
}

proof fn lemma_no_context_yet()
    ensures
        context_of(Seq::<Seq<char>>::empty()).len() == 0,
{
    assert(drop_empty(Seq::<Seq<char>>::empty()) =~= Seq::<Seq<char>>::empty());
}

/// A message line reads as its key and the text after the first `=`, with
/// the whitespace after `=` dropped: `k=v` and `k = v` both give the
/// message `k` with value `v`, and no context. It holds for every
/// identifier `k` and every value `v` that fits on one line (not empty, no
/// line end, no whitespace at either end).
pub proof fn lemma_read_one_message(k: Seq<char>, v: Seq<char>)
    requires
        ascii_id(k),
        one_line_value(v),
    ensures
        parse_ftl(k + seq!['='] + v + seq!['\n']).0 == Map::<Seq<char>, Seq<char>>::empty().insert(k, v),
        parse_ftl(k + seq!['='] + v + seq!['\n']).1 == Map::<Seq<char>, Seq<char>>::empty(),
        parse_ftl(k + seq!['='] + v + seq!['\n']) == parse_ftl(k + seq![' ', '=', ' '] + v + seq!['\n']),
{
    lemma_no_context_yet();
    let e = Map::<Seq<char>, Seq<char>>::empty();
    assert forall|spaced: bool| #[trigger] parse_ftl(message_line(k, v, spaced) + seq!['\n']) == (
    e.insert(k, v), e) by {
        lemma_message_line(k, v, spaced);
        let x = message_line(k, v, spaced);
        lemma_lines_one(x);
        let lines = str_lines(x + seq!['\n']);
        assert(lines == seq![x]);
        lemma_read_message_line(lines, 0, seq![], e, e, k, v, spaced);
        assert(attr_end(lines, 1) == 1);
    }
    assert(message_line(k, v, false) == k + seq!['='] + v);
    assert(message_line(k, v, true) == k + seq![' ', '=', ' '] + v);
    assert(parse_ftl(message_line(k, v, false) + seq!['\n']) == (e.insert(k, v), e));
    assert(parse_ftl(message_line(k, v, true) + seq!['\n']) == (e.insert(k, v), e));
}

/// A message's context is made only of the comment lines right above it: a
/// term between a comment and a message (`# c`, `-t`, `k = v`) ends the
/// comment block, and the message gets no context. It holds for every
/// comment text `c` and term text `t` without a line end, identifier `k`
/// and one-line value `v`.
pub proof fn lemma_term_ends_comment(c: Seq<char>, t: Seq<char>, k: Seq<char>, v: Seq<char>)
    requires
        forall|i: int| 0 <= i < c.len() ==> #[trigger] c[i] != '\n',
        forall|i: int| 0 <= i < t.len() ==> #[trigger] t[i] != '\n',
        ascii_id(k),
        one_line_value(v),
    ensures
        parse_ftl(
            seq!['#'] + c + seq!['\n'] + seq!['-'] + t + seq!['\n'] + k + seq![' ', '=', ' '] + v
                + seq!['\n'],
        ) == (Map::<Seq<char>, Seq<char>>::empty().insert(k, v), Map::<Seq<char>, Seq<char>>::empty()),
{
    lemma_no_context_yet();
    lemma_message_line(k, v, true);
    lemma_ascii_id_valid(k);
    let e = Map::<Seq<char>, Seq<char>>::empty();
    let a = seq!['#'] + c;
    let b = seq!['-'] + t;
    let x = message_line(k, v, true);
    let content = seq!['#'] + c + seq!['\n'] + seq!['-'] + t + seq!['\n'] + k + seq![' ', '=', ' ']
        + v + seq!['\n'];
    assert(content =~= (a + seq!['\n']) + ((b + seq!['\n']) + (x + seq!['\n'])));
    assert forall|i: int| 0 <= i < a.len() implies #[trigger] a[i] != '\n' by {
        if i > 0 {
            assert(a[i] == c[i - 1]);
        }
    }
    assert forall|i: int| 0 <= i < b.len() implies #[trigger] b[i] != '\n' by {
        if i > 0 {
            assert(b[i] == t[i - 1]);
        }
    }
    lemma_lacks_chars(a, '\n');
    lemma_lacks_chars(b, '\n');
    lemma_lines_one(a);
    lemma_lines_one(b);
    lemma_lines_one(x);
    lemma_lines_append(b + seq!['\n'], x + seq!['\n']);
    lemma_lines_append(a + seq!['\n'], (b + seq!['\n']) + (x + seq!['\n']));
    let lines = str_lines(content);
    let l0 = strip_cr(a);
    let l1 = strip_cr(b);
    assert(lines == seq![l0, l1, x]);
    // the comment line
    assert(l0.len() > 0 && l0[0] == '#') by {
        if a.len() > 1 {
            assert(a.last() == c.last());
        }
    }
    assert(!is_ws('#'));
    lemma_trim_first(l0);
    let t0 = trim(l0);
    assert(parse_lines(lines, 0, seq![], e, e) == parse_lines(lines, 1, seq![comment_text(t0)], e, e));
    // the term line
    assert(l1.len() > 0 && l1[0] == '-') by {
        if b.len() > 1 {
            assert(b.last() == t.last());
        }
    }
    assert(!is_ws('-'));
    lemma_trim_first(l1);
    assert(!is_indented(x));
    assert(!is_attr_line(x));
    assert(body_end(lines, 2) == 2);
    assert(parse_lines(lines, 1, seq![comment_text(t0)], e, e) == parse_lines(lines, 2, seq![], e, e));
    // the message line
    lemma_read_message_line(lines, 2, seq![], e, e, k, v, true);
    assert(attr_end(lines, 3) == 3);
}

} // verus!
