//! Character-level helpers: strings are handled as sequences of `char`.
//!
//! The spec functions here say what the `str` methods that the conversion
//! relies on compute (`trim`, `lines`, `split('\n')`, `join("\n")`, the
//! ordering of `String`), and the executable functions compute them.

use vstd::prelude::*;

verus! {

broadcast use vstd::string::group_string_axioms;

// ---------------------------------------------------------------------------
// Characters
// ---------------------------------------------------------------------------

/// `char::is_whitespace`: the characters with the Unicode `White_Space` property.
pub open spec fn is_ws(c: char) -> bool {
    let n = c as u32;
    ||| 0x09 <= n <= 0x0d
    ||| n == 0x20
    ||| n == 0x85
    ||| n == 0xa0
    ||| n == 0x1680
    ||| 0x2000 <= n <= 0x200a
    ||| n == 0x2028
    ||| n == 0x2029
    ||| n == 0x202f
    ||| n == 0x205f
    ||| n == 0x3000
}

pub fn char_is_ws(c: char) -> (b: bool)
    ensures
        b == is_ws(c),
{
    let n = c as u32;
    (0x09 <= n && n <= 0x0d) || n == 0x20 || n == 0x85 || n == 0xa0 || n == 0x1680 || (0x2000
        <= n && n <= 0x200a) || n == 0x2028 || n == 0x2029 || n == 0x202f || n == 0x205f || n
        == 0x3000
}

/// `char::is_ascii_alphabetic`.
pub open spec fn is_ascii_alpha(c: char) -> bool {
    let n = c as u32;
    (0x41 <= n <= 0x5a) || (0x61 <= n <= 0x7a)
}

/// `char::is_ascii_digit`.
pub open spec fn is_ascii_digit(c: char) -> bool {
    let n = c as u32;
    0x30 <= n <= 0x39
}

pub fn char_is_ascii_alpha(c: char) -> (b: bool)
    ensures
        b == is_ascii_alpha(c),
{
    let n = c as u32;
    (0x41 <= n && n <= 0x5a) || (0x61 <= n && n <= 0x7a)
}

pub fn char_is_ascii_digit(c: char) -> (b: bool)
    ensures
        b == is_ascii_digit(c),
{
    let n = c as u32;
    0x30 <= n && n <= 0x39
}

/// `char::to_ascii_lowercase`: `A`..`Z` become `a`..`z`, every other char is kept.
pub open spec fn ascii_lower(c: char) -> char {
    if 0x41 <= (c as u32) <= 0x5a {
        ((c as u32) + 32) as char
    } else {
        c
    }
}

pub fn char_ascii_lower(c: char) -> (r: char)
    ensures
        r == ascii_lower(c),
{
    let n = c as u32;
    if 0x41 <= n && n <= 0x5a {
        let b = (n + 32) as u8;
        b as char
    } else {
        c
    }
}

// ---------------------------------------------------------------------------
// UTF-8
// ---------------------------------------------------------------------------

/// The UTF-8 bytes of one char (`char::encode_utf8`).
pub open spec fn utf8_char(c: char) -> Seq<u8> {
    let n = c as u32 as int;
    if n < 0x80 {
        seq![n as u8]
    } else if n < 0x800 {
        seq![(0xC0 + n / 64) as u8, (0x80 + n % 64) as u8]
    } else if n < 0x10000 {
        seq![(0xE0 + n / 4096) as u8, (0x80 + (n / 64) % 64) as u8, (0x80 + n % 64) as u8]
    } else {
        seq![
            (0xF0 + n / 262144) as u8,
            (0x80 + (n / 4096) % 64) as u8,
            (0x80 + (n / 64) % 64) as u8,
            (0x80 + n % 64) as u8,
        ]
    }
}

/// The UTF-8 bytes of a string (`str::as_bytes`).
pub open spec fn utf8(s: Seq<char>) -> Seq<u8>
    decreases s.len(),
{
    if s.len() == 0 {
        seq![]
    } else {
        utf8_char(s[0]) + utf8(s.drop_first())
    }
}

// ---------------------------------------------------------------------------
// Converting between `str`/`String` and `Vec<char>`
// ---------------------------------------------------------------------------

/// The characters of `s`, in order.
pub fn chars_of(s: &str) -> (v: Vec<char>)
    ensures
        v@ == s@,
{
    let mut v: Vec<char> = Vec::new();
    for c in it: s.chars()
        invariant
            v@ == it.seq().take(it.index()),
    {
        v.push(c);
    }
    v
}

/// `String::push`: appends one char.
#[verifier::external_body]
pub fn push_char(s: &mut String, c: char)
    ensures
        final(s)@ == old(s)@.push(c),
{
    s.push(c);
}

/// Appends the chars `v[lo..hi]` to `s`.
pub fn push_chars(s: &mut String, v: &[char], lo: usize, hi: usize)
    requires
        lo <= hi <= v@.len(),
    ensures
        final(s)@ == old(s)@ + v@.subrange(lo as int, hi as int),
{
    let mut i = lo;
    while i < hi
        invariant
            lo <= i <= hi <= v@.len(),
            s@ == old(s)@ + v@.subrange(lo as int, i as int),
        decreases hi - i,
    {
        push_char(s, v[i]);
        assert(v@.subrange(lo as int, i + 1) == v@.subrange(lo as int, i as int).push(v@[i as int]));
        i += 1;
    }
}

/// Appends the chars of `t` to `s`.
pub fn push_str(s: &mut String, t: &str)
    ensures
        final(s)@ == old(s)@ + t@,
{
    let v = chars_of(t);
    push_chars(s, v.as_slice(), 0, v.len());
    assert(v@.subrange(0, v@.len() as int) == v@);
}

/// A `String` holding `v[lo..hi]`.
pub fn string_of(v: &[char], lo: usize, hi: usize) -> (s: String)
    requires
        lo <= hi <= v@.len(),
    ensures
        s@ == v@.subrange(lo as int, hi as int),
{
    let mut s = String::new();
    push_chars(&mut s, v, lo, hi);
    s
}

/// A copy of `v[lo..hi]`.
pub fn sub_chars(v: &[char], lo: usize, hi: usize) -> (r: Vec<char>)
    requires
        lo <= hi <= v@.len(),
    ensures
        r@ == v@.subrange(lo as int, hi as int),
{
    let mut r: Vec<char> = Vec::new();
    let mut i = lo;
    while i < hi
        invariant
            lo <= i <= hi <= v@.len(),
            r@ == v@.subrange(lo as int, i as int),
        decreases hi - i,
    {
        r.push(v[i]);
        assert(v@.subrange(lo as int, i + 1) == v@.subrange(lo as int, i as int).push(v@[i as int]));
        i += 1;
    }
    r
}

// ---------------------------------------------------------------------------
// Trimming
// ---------------------------------------------------------------------------

/// Number of leading whitespace chars of `s`.
pub open spec fn lead_ws(s: Seq<char>) -> nat
    decreases s.len(),
{
    if s.len() > 0 && is_ws(s[0]) {
        1 + lead_ws(s.drop_first())
    } else {
        0
    }
}

/// Number of trailing whitespace chars of `s`.
pub open spec fn trail_ws(s: Seq<char>) -> nat
    decreases s.len(),
{
    if s.len() > 0 && is_ws(s.last()) {
        1 + trail_ws(s.drop_last())
    } else {
        0
    }
}

/// `str::trim_start`.
pub open spec fn trim_start(s: Seq<char>) -> Seq<char> {
    s.skip(lead_ws(s) as int)
}

/// `str::trim_end`.
pub open spec fn trim_end(s: Seq<char>) -> Seq<char> {
    s.take(s.len() - trail_ws(s))
}

/// `str::trim`.
pub open spec fn trim(s: Seq<char>) -> Seq<char> {
    trim_end(trim_start(s))
}

pub proof fn lemma_lead_ws_bound(s: Seq<char>)
    ensures
        lead_ws(s) <= s.len(),
        forall|i: int| 0 <= i < lead_ws(s) ==> is_ws(#[trigger] s[i]),
        lead_ws(s) < s.len() ==> !is_ws(s[lead_ws(s) as int]),
    decreases s.len(),
{
    if s.len() > 0 && is_ws(s[0]) {
        lemma_lead_ws_bound(s.drop_first());
        assert forall|i: int| 0 <= i < lead_ws(s) implies is_ws(#[trigger] s[i]) by {
            if i > 0 {
                assert(s[i] == s.drop_first()[i - 1]);
            }
        }
    }
}

pub proof fn lemma_trail_ws_bound(s: Seq<char>)
    ensures
        trail_ws(s) <= s.len(),
        forall|i: int| s.len() - trail_ws(s) <= i < s.len() ==> is_ws(#[trigger] s[i]),
        trail_ws(s) < s.len() ==> !is_ws(s[s.len() - trail_ws(s) - 1]),
    decreases s.len(),
{
    if s.len() > 0 && is_ws(s.last()) {
        lemma_trail_ws_bound(s.drop_last());
        assert forall|i: int| s.len() - trail_ws(s) <= i < s.len() implies is_ws(#[trigger] s[i]) by {
            if i < s.len() - 1 {
                assert(s[i] == s.drop_last()[i]);
            }
        }
    }
}

/// `lead_ws` is pinned down by where the first non-whitespace char stands.
pub proof fn lemma_lead_ws_is(s: Seq<char>, k: int)
    requires
        0 <= k <= s.len(),
        forall|i: int| 0 <= i < k ==> is_ws(#[trigger] s[i]),
        k < s.len() ==> !is_ws(s[k]),
    ensures
        lead_ws(s) == k,
    decreases s.len(),
{
    if k > 0 {
        assert(is_ws(s[0]));
        assert forall|i: int| 0 <= i < k - 1 implies is_ws(#[trigger] s.drop_first()[i]) by {
            assert(s.drop_first()[i] == s[i + 1]);
        }
        lemma_lead_ws_is(s.drop_first(), k - 1);
    }
}

/// `trail_ws` is pinned down by where the last non-whitespace char stands.
pub proof fn lemma_trail_ws_is(s: Seq<char>, k: int)
    requires
        0 <= k <= s.len(),
        forall|i: int| k <= i < s.len() ==> is_ws(#[trigger] s[i]),
        k > 0 ==> !is_ws(s[k - 1]),
    ensures
        trail_ws(s) == s.len() - k,
    decreases s.len(),
{
    if k < s.len() {
        assert(is_ws(s[s.len() - 1]));
        assert forall|i: int| k <= i < s.len() - 1 implies is_ws(#[trigger] s.drop_last()[i]) by {
            assert(s.drop_last()[i] == s[i]);
        }
        lemma_trail_ws_is(s.drop_last(), k);
    }
}

/// The index of the first non-whitespace char of `v[lo..hi]`, or `hi`.
pub fn skip_ws(v: &[char], lo: usize, hi: usize) -> (k: usize)
    requires
        lo <= hi <= v@.len(),
    ensures
        lo <= k <= hi,
        k - lo == lead_ws(v@.subrange(lo as int, hi as int)),
{
    let mut k = lo;
    while k < hi && char_is_ws(v[k])
        invariant
            lo <= k <= hi <= v@.len(),
            forall|i: int| lo <= i < k ==> is_ws(#[trigger] v@[i]),
        decreases hi - k,
    {
        k += 1;
    }
    proof {
        let s = v@.subrange(lo as int, hi as int);
        assert forall|i: int| 0 <= i < k - lo implies is_ws(#[trigger] s[i]) by {
            assert(s[i] == v@[lo + i]);
        }
        lemma_lead_ws_is(s, k - lo);
    }
    k
}

/// The end of `v[lo..hi]` once trailing whitespace is dropped.
pub fn skip_ws_back(v: &[char], lo: usize, hi: usize) -> (k: usize)
    requires
        lo <= hi <= v@.len(),
    ensures
        lo <= k <= hi,
        hi - k == trail_ws(v@.subrange(lo as int, hi as int)),
{
    let mut k = hi;
    while k > lo && char_is_ws(v[k - 1])
        invariant
            lo <= k <= hi <= v@.len(),
            forall|i: int| k <= i < hi ==> is_ws(#[trigger] v@[i]),
        decreases k - lo,
    {
        k -= 1;
    }
    proof {
        let s = v@.subrange(lo as int, hi as int);
        assert forall|i: int| k - lo <= i < s.len() implies is_ws(#[trigger] s[i]) by {
            assert(s[i] == v@[lo + i]);
        }
        lemma_trail_ws_is(s, k - lo);
    }
    k
}

/// The bounds of `trim(v[lo..hi])` within `v`.
pub fn trim_bounds(v: &[char], lo: usize, hi: usize) -> (r: (usize, usize))
    requires
        lo <= hi <= v@.len(),
    ensures
        lo <= r.0 <= r.1 <= hi,
        v@.subrange(r.0 as int, r.1 as int) == trim(v@.subrange(lo as int, hi as int)),
{
    let a = skip_ws(v, lo, hi);
    let b = skip_ws_back(v, a, hi);
    assert(v@.subrange(a as int, hi as int) == trim_start(v@.subrange(lo as int, hi as int)));
    assert(v@.subrange(a as int, b as int) == trim_end(v@.subrange(a as int, hi as int)));
    (a, b)
}

/// `trim` of a whole char vector, as a new vector.
pub fn trim_chars(v: &[char]) -> (r: Vec<char>)
    ensures
        r@ == trim(v@),
{
    let (a, b) = trim_bounds(v, 0, v.len());
    assert(v@.subrange(0, v@.len() as int) == v@);
    sub_chars(v, a, b)
}

/// `trim_start` of a whole char vector, as a new vector.
pub fn trim_start_chars(v: &[char]) -> (r: Vec<char>)
    ensures
        r@ == trim_start(v@),
{
    let a = skip_ws(v, 0, v.len());
    assert(v@.subrange(0, v@.len() as int) == v@);
    sub_chars(v, a, v.len())
}

/// `trim` of a `str`, as a `String`.
pub fn trim_string(s: &str) -> (r: String)
    ensures
        r@ == trim(s@),
{
    let v = chars_of(s);
    let (a, b) = trim_bounds(v.as_slice(), 0, v.len());
    assert(v@.subrange(0, v@.len() as int) == v@);
    string_of(v.as_slice(), a, b)
}

// ---------------------------------------------------------------------------
// Lines, splitting and joining
// ---------------------------------------------------------------------------

/// The index of the first `c` in `s`, or `s.len()` when there is none.
pub open spec fn first_idx(s: Seq<char>, c: char) -> nat
    decreases s.len(),
{
    if s.len() == 0 || s[0] == c {
        0
    } else {
        1 + first_idx(s.drop_first(), c)
    }
}

/// The index of the first `'\n'` in `s`, or `s.len()`.
pub open spec fn first_nl(s: Seq<char>) -> nat {
    first_idx(s, '\n')
}

/// Drops one `'\r'` at the end of a line.
pub open spec fn strip_cr(l: Seq<char>) -> Seq<char> {
    if l.len() > 0 && l.last() == '\r' {
        l.drop_last()
    } else {
        l
    }
}

/// `str::lines`: split at `'\n'`, drop a `'\r'` before it, and drop the
/// empty piece after a final `'\n'`.
pub open spec fn str_lines(s: Seq<char>) -> Seq<Seq<char>>
    decreases s.len(),
{
    if s.len() == 0 {
        seq![]
    } else if first_nl(s) >= s.len() {
        seq![s]
    } else {
        seq![strip_cr(s.take(first_nl(s) as int))] + str_lines(s.skip(first_nl(s) as int + 1))
    }
}

/// `str::split('\n')`: the pieces between the `'\n'`s; never empty.
pub open spec fn split_nl(s: Seq<char>) -> Seq<Seq<char>>
    decreases s.len(),
{
    if first_nl(s) >= s.len() {
        seq![s]
    } else {
        seq![s.take(first_nl(s) as int)] + split_nl(s.skip(first_nl(s) as int + 1))
    }
}

/// `join("\n")` of a list of pieces.
pub open spec fn join_nl(parts: Seq<Seq<char>>) -> Seq<char>
    decreases parts.len(),
{
    if parts.len() == 0 {
        seq![]
    } else if parts.len() == 1 {
        parts[0]
    } else {
        join_nl(parts.drop_last()) + seq!['\n'] + parts.last()
    }
}

/// The chars of each string.
pub open spec fn string_views(s: Seq<String>) -> Seq<Seq<char>> {
    s.map_values(|x: String| x@)
}

/// What the first `m + 1` items hold: the first `m` and item `m`.
pub proof fn lemma_take_push_contains<A>(s: Seq<A>, m: int)
    requires
        0 <= m < s.len(),
    ensures
        forall|x: A| #[trigger] s.take(m + 1).contains(x) == (s.take(m).contains(x) || x == s[m]),
{
    assert forall|x: A| #[trigger] s.take(m + 1).contains(x) == (s.take(m).contains(x) || x == s[m]) by {
        if s.take(m + 1).contains(x) {
            let q = choose|q: int| 0 <= q < s.take(m + 1).len() && #[trigger] s.take(m + 1)[q] == x;
            if q < m {
                assert(s.take(m)[q] == x);
            }
        }
        if s.take(m).contains(x) {
            let q = choose|q: int| 0 <= q < s.take(m).len() && #[trigger] s.take(m)[q] == x;
            assert(s.take(m + 1)[q] == x);
        }
        if x == s[m] {
            assert(s.take(m + 1)[m] == x);
        }
    }
}

/// The char view of each of a list of char vectors.
pub open spec fn views(v: Seq<Vec<char>>) -> Seq<Seq<char>> {
    v.map_values(|l: Vec<char>| l@)
}

pub proof fn lemma_first_idx_bound(s: Seq<char>, c: char)
    ensures
        first_idx(s, c) <= s.len(),
        forall|i: int| 0 <= i < first_idx(s, c) ==> #[trigger] s[i] != c,
        first_idx(s, c) < s.len() ==> s[first_idx(s, c) as int] == c,
    decreases s.len(),
{
    if !(s.len() == 0 || s[0] == c) {
        lemma_first_idx_bound(s.drop_first(), c);
        assert forall|i: int| 0 <= i < first_idx(s, c) implies #[trigger] s[i] != c by {
            if i > 0 {
                assert(s[i] == s.drop_first()[i - 1]);
            }
        }
    }
}

/// `first_idx` is pinned down by where the first `c` stands.
pub proof fn lemma_first_idx_is(s: Seq<char>, c: char, k: int)
    requires
        0 <= k <= s.len(),
        forall|i: int| 0 <= i < k ==> #[trigger] s[i] != c,
        k < s.len() ==> s[k] == c,
    ensures
        first_idx(s, c) == k,
    decreases s.len(),
{
    if k > 0 {
        assert(s[0] != c);
        assert forall|i: int| 0 <= i < k - 1 implies #[trigger] s.drop_first()[i] != c by {
            assert(s.drop_first()[i] == s[i + 1]);
        }
        lemma_first_idx_is(s.drop_first(), c, k - 1);
    }
}

/// The index of the first `c` in `v[lo..]`, or `v.len()`.
pub fn find_char(v: &[char], lo: usize, c: char) -> (k: usize)
    requires
        lo <= v@.len(),
    ensures
        lo <= k <= v@.len(),
        k - lo == first_idx(v@.skip(lo as int), c),
{
    let mut k = lo;
    while k < v.len() && v[k] != c
        invariant
            lo <= k <= v@.len(),
            forall|i: int| lo <= i < k ==> #[trigger] v@[i] != c,
        decreases v@.len() - k,
    {
        k += 1;
    }
    proof {
        let s = v@.skip(lo as int);
        assert forall|i: int| 0 <= i < k - lo implies #[trigger] s[i] != c by {
            assert(s[i] == v@[lo + i]);
        }
        lemma_first_idx_is(s, c, k - lo);
    }
    k
}

/// `str::lines` on a char vector.
pub fn split_lines(v: &[char]) -> (r: Vec<Vec<char>>)
    ensures
        views(r@) == str_lines(v@),
{
    let mut r: Vec<Vec<char>> = Vec::new();
    let mut pos: usize = 0;
    assert(v@.skip(0) == v@);
    while pos < v.len()
        invariant
            pos <= v@.len(),
            views(r@) + str_lines(v@.skip(pos as int)) == str_lines(v@),
        decreases v@.len() - pos,
    {
        let ghost rest = v@.skip(pos as int);
        let j = find_char(v, pos, '\n');
        let mut end = j;
        if j < v.len() && end > pos && v[end - 1] == '\r' {
            end = end - 1;
        }
        let line = sub_chars(v, pos, end);
        proof {
            let n = first_nl(rest);
            if j < v.len() {
                assert(rest.take(n as int) =~= v@.subrange(pos as int, j as int));
                assert(rest.skip(n as int + 1) =~= v@.skip(j + 1));
                assert(strip_cr(rest.take(n as int)) =~= line@);
                assert(str_lines(rest) == seq![line@] + str_lines(v@.skip(j + 1)));
            } else {
                assert(rest =~= v@.subrange(pos as int, j as int));
                assert(str_lines(rest) == seq![line@]);
            }
        }
        let ghost prev = views(r@);
        r.push(line);
        assert(views(r@) =~= prev.push(line@));
        pos = if j < v.len() { j + 1 } else { j };
        proof {
            if j >= v.len() {
                assert(v@.skip(pos as int) =~= Seq::<char>::empty());
            }
            assert(prev.push(line@) + str_lines(v@.skip(pos as int)) =~= prev + (seq![line@] + str_lines(v@.skip(pos as int))));
        }
    }
    assert(v@.skip(pos as int).len() == 0);
    assert(views(r@) + seq![] == views(r@));
    r
}

/// Appends `v` to `out`.
pub fn append_chars(out: &mut Vec<char>, v: &[char])
    ensures
        final(out)@ == old(out)@ + v@,
{
    let mut i: usize = 0;
    while i < v.len()
        invariant
            i <= v@.len(),
            out@ == old(out)@ + v@.take(i as int),
        decreases v@.len() - i,
    {
        out.push(v[i]);
        assert(v@.take(i + 1) =~= v@.take(i as int).push(v@[i as int]));
        i += 1;
    }
    assert(v@.take(v@.len() as int) =~= v@);
}

/// `join("\n")` on char vectors.
pub fn join_nl_chars(parts: &Vec<Vec<char>>) -> (r: Vec<char>)
    ensures
        r@ == join_nl(views(parts@)),
{
    let mut out: Vec<char> = Vec::new();
    let mut i: usize = 0;
    while i < parts.len()
        invariant
            i <= parts@.len(),
            out@ == join_nl(views(parts@).take(i as int)),
        decreases parts@.len() - i,
    {
        let ghost ps = views(parts@).take(i + 1);
        assert(ps.drop_last() =~= views(parts@).take(i as int));
        if i > 0 {
            out.push('\n');
        }
        append_chars(&mut out, parts[i].as_slice());
        proof {
            if i == 0 {
                assert(out@ =~= join_nl(ps));
            } else {
                assert(out@ =~= join_nl(ps));
            }
        }
        i += 1;
    }
    assert(views(parts@).take(parts@.len() as int) =~= views(parts@));
    out
}

/// `str::split('\n')` on a char vector.
pub fn split_nl_chars(v: &[char]) -> (r: Vec<Vec<char>>)
    ensures
        views(r@) == split_nl(v@),
{
    let mut r: Vec<Vec<char>> = Vec::new();
    let mut pos: usize = 0;
    assert(v@.skip(0) == v@);
    loop
        invariant
            pos <= v@.len(),
            views(r@) + split_nl(v@.skip(pos as int)) == split_nl(v@),
        decreases v@.len() - pos,
    {
        let ghost rest = v@.skip(pos as int);
        let j = find_char(v, pos, '\n');
        let piece = sub_chars(v, pos, j);
        let ghost prev = views(r@);
        r.push(piece);
        assert(views(r@) =~= prev.push(piece@));
        if j >= v.len() {
            assert(rest =~= v@.subrange(pos as int, j as int));
            assert(split_nl(rest) == seq![piece@]);
            assert(prev.push(piece@) =~= prev + split_nl(rest));
            return r;
        }
        proof {
            let n = first_nl(rest);
            assert(rest.take(n as int) =~= piece@);
            assert(rest.skip(n as int + 1) =~= v@.skip(j + 1));
            assert(split_nl(rest) == seq![piece@] + split_nl(v@.skip(j + 1)));
            assert(prev.push(piece@) + split_nl(v@.skip(j + 1)) =~= prev + split_nl(rest));
        }
        pos = j + 1;
    }
}

// ---------------------------------------------------------------------------
// Ordering
// ---------------------------------------------------------------------------

/// The order of `String`: lexicographic by code point (UTF-8 byte order
/// gives the same order).
pub open spec fn seq_lt(a: Seq<char>, b: Seq<char>) -> bool
    decreases a.len(),
{
    if a.len() == 0 {
        b.len() > 0
    } else if b.len() == 0 {
        false
    } else if a[0] != b[0] {
        a[0] < b[0]
    } else {
        seq_lt(a.drop_first(), b.drop_first())
    }
}

pub proof fn lemma_lt_irreflexive(a: Seq<char>)
    ensures
        !seq_lt(a, a),
    decreases a.len(),
{
    if a.len() > 0 {
        lemma_lt_irreflexive(a.drop_first());
    }
}

pub proof fn lemma_lt_asymmetric(a: Seq<char>, b: Seq<char>)
    ensures
        seq_lt(a, b) ==> !seq_lt(b, a),
    decreases a.len(),
{
    if a.len() > 0 && b.len() > 0 && a[0] == b[0] {
        lemma_lt_asymmetric(a.drop_first(), b.drop_first());
    }
}

pub proof fn lemma_lt_transitive(a: Seq<char>, b: Seq<char>, c: Seq<char>)
    requires
        seq_lt(a, b),
        seq_lt(b, c),
    ensures
        seq_lt(a, c),
    decreases a.len(),
{
    if a.len() > 0 && b.len() > 0 && c.len() > 0 && a[0] == b[0] && b[0] == c[0] {
        lemma_lt_transitive(a.drop_first(), b.drop_first(), c.drop_first());
    }
}

pub proof fn lemma_lt_total(a: Seq<char>, b: Seq<char>)
    ensures
        a == b || seq_lt(a, b) || seq_lt(b, a),
    decreases a.len(),
{
    if a.len() > 0 && b.len() > 0 {
        if a[0] == b[0] {
            lemma_lt_total(a.drop_first(), b.drop_first());
            if a.drop_first() == b.drop_first() {
                assert(a =~= seq![a[0]] + a.drop_first());
                assert(b =~= seq![b[0]] + b.drop_first());
            }
        } else {
        }
    } else if a.len() == 0 && b.len() == 0 {
        assert(a =~= b);
    }
}

proof fn lemma_lt_skip(a: Seq<char>, b: Seq<char>, i: int)
    requires
        0 <= i <= a.len(),
        i <= b.len(),
        a.take(i) == b.take(i),
    ensures
        seq_lt(a, b) == seq_lt(a.skip(i), b.skip(i)),
    decreases i,
{
    if i > 0 {
        assert(a[0] == a.take(i)[0]);
        assert(b[0] == b.take(i)[0]);
        assert(a.drop_first().take(i - 1) =~= a.take(i).drop_first());
        assert(b.drop_first().take(i - 1) =~= b.take(i).drop_first());
        lemma_lt_skip(a.drop_first(), b.drop_first(), i - 1);
        assert(a.drop_first().skip(i - 1) =~= a.skip(i));
        assert(b.drop_first().skip(i - 1) =~= b.skip(i));
    } else {
        assert(a.skip(0) =~= a);
        assert(b.skip(0) =~= b);
    }
}

/// `a < b` on char vectors.
pub fn chars_lt(a: &[char], b: &[char]) -> (r: bool)
    ensures
        r == seq_lt(a@, b@),
{
    let mut i: usize = 0;
    while i < a.len() && i < b.len() && a[i] == b[i]
        invariant
            i <= a@.len(),
            i <= b@.len(),
            a@.take(i as int) == b@.take(i as int),
        decreases a@.len() - i,
    {
        assert(a@.take(i + 1) =~= a@.take(i as int).push(a@[i as int]));
        assert(b@.take(i + 1) =~= b@.take(i as int).push(b@[i as int]));
        i += 1;
    }
    proof {
        lemma_lt_skip(a@, b@, i as int);
    }
    if i == a.len() {
        i < b.len()
    } else if i == b.len() {
        false
    } else {
        a[i] < b[i]
    }
}

/// `a < b` on strings.
pub fn str_lt(a: &str, b: &str) -> (r: bool)
    ensures
        r == seq_lt(a@, b@),
{
    let va = chars_of(a);
    let vb = chars_of(b);
    chars_lt(va.as_slice(), vb.as_slice())
}

/// `a == b` on char vectors.
pub fn chars_eq(a: &[char], b: &[char]) -> (r: bool)
    ensures
        r == (a@ == b@),
{
    if a.len() != b.len() {
        assert(a@.len() != b@.len());
        return false;
    }
    let mut i: usize = 0;
    while i < a.len()
        invariant
            i <= a@.len(),
            a@.len() == b@.len(),
            forall|j: int| 0 <= j < i ==> a@[j] == b@[j],
        decreases a@.len() - i,
    {
        if a[i] != b[i] {
            assert(a@[i as int] != b@[i as int]);
            return false;
        }
        i += 1;
    }
    assert(a@ =~= b@);
    true
}

/// `a == b` on strings.
pub fn str_eq(a: &str, b: &str) -> (r: bool)
    ensures
        r == (a@ == b@),
{
    let va = chars_of(a);
    let vb = chars_of(b);
    chars_eq(va.as_slice(), vb.as_slice())
}

/// `to_ascii_lowercase` of each char.
pub open spec fn lower(s: Seq<char>) -> Seq<char> {
    s.map_values(|c: char| ascii_lower(c))
}

/// `str::to_ascii_lowercase` on a char vector.
pub fn lower_chars(v: &[char]) -> (r: Vec<char>)
    ensures
        r@ == lower(v@),
{
    let mut r: Vec<char> = Vec::new();
    let mut i: usize = 0;
    while i < v.len()
        invariant
            i <= v@.len(),
            r@ == lower(v@.take(i as int)),
        decreases v@.len() - i,
    {
        r.push(char_ascii_lower(v[i]));
        assert(lower(v@.take(i + 1)) =~= lower(v@.take(i as int)).push(ascii_lower(v@[i as int])));
        i += 1;
    }
    assert(v@.take(v@.len() as int) =~= v@);
    r
}

// ---------------------------------------------------------------------------
// Facts about trimming, lines and joining
// ---------------------------------------------------------------------------

/// Leading whitespace of a concatenation that has a non-whitespace char in
/// its first part.
pub proof fn lemma_lead_ws_concat(a: Seq<char>, b: Seq<char>)
    ensures
        lead_ws(a) < a.len() ==> lead_ws(a + b) == lead_ws(a),
        lead_ws(a) == a.len() ==> lead_ws(a + b) == a.len() + lead_ws(b),
{
    lemma_lead_ws_bound(a);
    lemma_lead_ws_bound(b);
    let s = a + b;
    if lead_ws(a) < a.len() {
        assert forall|i: int| 0 <= i < lead_ws(a) implies is_ws(#[trigger] s[i]) by {
            assert(s[i] == a[i]);
        }
        assert(s[lead_ws(a) as int] == a[lead_ws(a) as int]);
        lemma_lead_ws_is(s, lead_ws(a) as int);
    } else {
        let k = (a.len() + lead_ws(b)) as int;
        assert forall|i: int| 0 <= i < k implies is_ws(#[trigger] s[i]) by {
            if i < a.len() {
                assert(s[i] == a[i]);
            } else {
                assert(s[i] == b[i - a.len()]);
            }
        }
        if k < s.len() {
            assert(s[k] == b[lead_ws(b) as int]);
        }
        lemma_lead_ws_is(s, k);
    }
}

/// Trailing whitespace of a concatenation that has a non-whitespace char in
/// its second part.
pub proof fn lemma_trail_ws_concat(a: Seq<char>, b: Seq<char>)
    ensures
        trail_ws(b) < b.len() ==> trail_ws(a + b) == trail_ws(b),
        trail_ws(b) == b.len() ==> trail_ws(a + b) == b.len() + trail_ws(a),
{
    lemma_trail_ws_bound(a);
    lemma_trail_ws_bound(b);
    let s = a + b;
    if trail_ws(b) < b.len() {
        let k = s.len() - trail_ws(b);
        assert forall|i: int| k <= i < s.len() implies is_ws(#[trigger] s[i]) by {
            assert(s[i] == b[i - a.len()]);
        }
        assert(s[k - 1] == b[b.len() - trail_ws(b) - 1]);
        lemma_trail_ws_is(s, k);
    } else {
        let k = a.len() - trail_ws(a);
        assert forall|i: int| k <= i < s.len() implies is_ws(#[trigger] s[i]) by {
            if i < a.len() {
                assert(s[i] == a[i]);
            } else {
                assert(s[i] == b[i - a.len()]);
            }
        }
        if k > 0 {
            assert(s[k - 1] == a[k - 1]);
        }
        lemma_trail_ws_is(s, k);
    }
}

/// Trimming the start and the end can be done in either order.
pub proof fn lemma_trim_commutes(s: Seq<char>)
    ensures
        trim_start(trim_end(s)) == trim(s),
{
    lemma_lead_ws_bound(s);
    lemma_trail_ws_bound(s);
    let a = lead_ws(s) as int;
    let b = trail_ws(s) as int;
    if a == s.len() {
        lemma_trail_ws_is(s, 0);
        assert(trim_end(s) =~= Seq::<char>::empty());
        assert(trim_start(s) =~= Seq::<char>::empty());
        assert(trim_start(trim_end(s)) =~= Seq::<char>::empty());
        assert(trim(s) =~= Seq::<char>::empty());
    } else {
        // the first non-whitespace char stands before the last one
        assert(s.len() - b - 1 >= a) by {
            if s.len() - b - 1 < a {
                assert(is_ws(s[a]));
            }
        }
        let e = trim_end(s);
        assert forall|i: int| 0 <= i < a implies is_ws(#[trigger] e[i]) by {
            assert(e[i] == s[i]);
        }
        assert(e[a] == s[a]);
        lemma_lead_ws_is(e, a);
        let t = trim_start(s);
        assert forall|i: int| s.len() - b - a <= i < t.len() implies is_ws(#[trigger] t[i]) by {
            assert(t[i] == s[i + a]);
        }
        assert(t[s.len() - b - a - 1] == s[s.len() - b - 1]);
        lemma_trail_ws_is(t, s.len() - b - a);
        assert(trim_start(e) =~= s.subrange(a, s.len() - b));
        assert(trim(s) =~= s.subrange(a, s.len() - b));
    }
}

/// `trim` leaves alone a string without whitespace at either end.
pub proof fn lemma_trim_noop(s: Seq<char>)
    requires
        s.len() > 0 ==> !is_ws(s[0]) && !is_ws(s.last()),
    ensures
        trim(s) == s,
{
    if s.len() > 0 {
        lemma_lead_ws_is(s, 0);
        assert(trim_start(s) =~= s);
        lemma_trail_ws_is(s, s.len() as int);
        assert(trim_end(s) =~= s);
    } else {
        assert(trim(s) =~= s);
    }
}

/// Trimming a trimmed string changes nothing.
pub proof fn lemma_trim_twice(s: Seq<char>)
    ensures
        trim(trim(s)) == trim(s),
{
    lemma_lead_ws_bound(s);
    let a = lead_ws(s) as int;
    let t = trim_start(s);
    lemma_trail_ws_bound(t);
    let b = trail_ws(t) as int;
    let r = trim(s);
    if r.len() > 0 {
        assert(r[0] == t[0]);
        assert(t[0] == s[a]);
        assert(r.last() == t[t.len() - b - 1]);
    }
    lemma_trim_noop(r);
}

/// `str::lines` of a text made of two parts, the first one ending a line.
pub proof fn lemma_lines_append(a: Seq<char>, b: Seq<char>)
    requires
        a.len() == 0 || a.last() == '\n',
    ensures
        str_lines(a + b) == str_lines(a) + str_lines(b),
    decreases a.len(),
{
    if a.len() == 0 {
        assert(a + b =~= b);
        assert(str_lines(a) =~= Seq::<Seq<char>>::empty());
        assert(str_lines(b) =~= str_lines(a) + str_lines(b));
    } else {
        let s = a + b;
        lemma_first_idx_bound(a, '\n');
        let j = first_nl(a) as int;
        assert(j < a.len()) by {
            if j >= a.len() {
                assert(a[a.len() - 1] != '\n');
            }
        }
        assert forall|i: int| 0 <= i < j implies #[trigger] s[i] != '\n' by {
            assert(s[i] == a[i]);
        }
        assert(s[j] == a[j]);
        lemma_first_idx_is(s, '\n', j);
        assert(s.take(j) =~= a.take(j));
        assert(s.skip(j + 1) =~= a.skip(j + 1) + b);
        lemma_lines_append(a.skip(j + 1), b);
        assert(str_lines(s) =~= str_lines(a) + str_lines(b));
    }
}

/// `str::lines` of one line ended by `'\n'`.
pub proof fn lemma_lines_one(x: Seq<char>)
    requires
        first_nl(x) >= x.len(),
    ensures
        str_lines(x + seq!['\n']) == seq![strip_cr(x)],
{
    let s = x + seq!['\n'];
    lemma_first_idx_bound(x, '\n');
    assert forall|i: int| 0 <= i < x.len() implies #[trigger] s[i] != '\n' by {
        assert(s[i] == x[i]);
    }
    lemma_first_idx_is(s, '\n', x.len() as int);
    assert(s.take(x.len() as int) =~= x);
    assert(s.skip(x.len() as int + 1) =~= Seq::<char>::empty());
    assert(str_lines(Seq::<char>::empty()) == Seq::<Seq<char>>::empty());
    assert(str_lines(s) =~= seq![strip_cr(x)]);
}

/// Joining a first piece in front of a non-empty list.
pub proof fn lemma_join_front(a: Seq<char>, rest: Seq<Seq<char>>)
    requires
        rest.len() > 0,
    ensures
        join_nl(seq![a] + rest) == a + seq!['\n'] + join_nl(rest),
    decreases rest.len(),
{
    let all = seq![a] + rest;
    if rest.len() == 1 {
        assert(all.drop_last() =~= seq![a]);
        assert(all.last() == rest[0]);
        assert(join_nl(seq![a]) == a);
        assert(join_nl(rest) == rest[0]);
        assert(join_nl(all) == join_nl(all.drop_last()) + seq!['\n'] + all.last());
    } else {
        assert(all.drop_last() =~= seq![a] + rest.drop_last());
        lemma_join_front(a, rest.drop_last());
        assert(all.last() == rest.last());
        assert(join_nl(all) =~= a + seq!['\n'] + join_nl(rest));
    }
}

/// Splitting at `'\n'` and joining back gives the text back.
pub proof fn lemma_join_split(v: Seq<char>)
    ensures
        join_nl(split_nl(v)) == v,
    decreases v.len(),
{
    lemma_first_idx_bound(v, '\n');
    let j = first_nl(v) as int;
    if j >= v.len() {
        assert(split_nl(v) =~= seq![v]);
    } else {
        let rest = v.skip(j + 1);
        lemma_join_split(rest);
        assert(split_nl(v) == seq![v.take(j)] + split_nl(rest));
        lemma_split_nonempty(rest);
        lemma_join_front(v.take(j), split_nl(rest));
        assert(v =~= v.take(j) + seq!['\n'] + rest);
    }
}

/// `split('\n')` always gives at least one piece.
pub proof fn lemma_split_nonempty(v: Seq<char>)
    ensures
        split_nl(v).len() >= 1,
    decreases v.len(),
{
    lemma_first_idx_bound(v, '\n');
    if first_nl(v) < v.len() {
        lemma_split_nonempty(v.skip(first_nl(v) as int + 1));
    }
}

/// No piece of `split('\n')` holds a `'\n'`.
pub proof fn lemma_split_pieces(v: Seq<char>)
    ensures
        forall|i: int| 0 <= i < split_nl(v).len() ==> first_nl(#[trigger] split_nl(v)[i]) >= split_nl(v)[i].len(),
    decreases v.len(),
{
    lemma_first_idx_bound(v, '\n');
    let j = first_nl(v) as int;
    if j >= v.len() {
    } else {
        let rest = v.skip(j + 1);
        lemma_split_pieces(rest);
        let p = v.take(j);
        assert forall|i: int| 0 <= i < p.len() implies #[trigger] p[i] != '\n' by {
            assert(p[i] == v[i]);
        }
        lemma_first_idx_is(p, '\n', p.len() as int);
        assert forall|i: int| 0 <= i < split_nl(v).len() implies first_nl(#[trigger] split_nl(v)[i]) >= split_nl(v)[i].len() by {
            if i > 0 {
                assert(split_nl(v)[i] == split_nl(rest)[i - 1]);
            }
        }
    }
}

// ---------------------------------------------------------------------------
// Sorting
// ---------------------------------------------------------------------------

/// Ascending order, equal strings allowed.
pub open spec fn sorted_asc(s: Seq<Seq<char>>) -> bool {
    forall|i: int, j: int| 0 <= i < j < s.len() ==> !seq_lt(#[trigger] s[j], #[trigger] s[i])
}

proof fn lemma_insert_multiset<A>(s: Seq<A>, p: int, x: A)
    requires
        0 <= p <= s.len(),
    ensures
        s.insert(p, x).to_multiset() == s.to_multiset().insert(x),
{
    broadcast use vstd::multiset::group_multiset_axioms;
    let t = s.insert(p, x);
    t.to_multiset_ensures();
    assert(t.remove(p) =~= s);
    assert(t[p] == x);
    assert(t.to_multiset().count(x) > 0) by {
        assert(t.contains(x));
    }
    assert(t.to_multiset() =~= s.to_multiset().insert(x));
}

/// The strings of `v`, sorted in ascending order (a stable insertion sort).
pub fn sort_strings(v: &Vec<String>) -> (r: Vec<String>)
    ensures
        sorted_asc(string_views(r@)),
        string_views(r@).to_multiset() == string_views(v@).to_multiset(),
{
    let mut r: Vec<String> = Vec::new();
    let mut i: usize = 0;
    assert(string_views(v@).take(0) =~= Seq::<Seq<char>>::empty());
    assert(string_views(r@) =~= Seq::<Seq<char>>::empty());
    while i < v.len()
        invariant
            i <= v@.len(),
            sorted_asc(string_views(r@)),
            string_views(r@).to_multiset() == string_views(v@).take(i as int).to_multiset(),
        decreases v@.len() - i,
    {
        let x = v[i].clone();
        let ghost rs = string_views(r@);
        let mut p: usize = 0;
        while p < r.len() && !str_lt(x.as_str(), r[p].as_str())
            invariant
                p <= r@.len(),
                rs == string_views(r@),
                forall|q: int| 0 <= q < p ==> !seq_lt(x@, #[trigger] rs[q]),
            decreases r@.len() - p,
        {
            p += 1;
        }
        proof {
            assert forall|q: int| p <= q < rs.len() implies seq_lt(x@, #[trigger] rs[q]) by {
                assert(seq_lt(x@, rs[p as int]));
                if q > p {
                    assert(!seq_lt(rs[q], rs[p as int]));
                    lemma_lt_total(rs[q], rs[p as int]);
                    if rs[q] != rs[p as int] {
                        lemma_lt_transitive(x@, rs[p as int], rs[q]);
                    }
                }
            }
        }
        r.insert(p, x);
        let ghost ns = string_views(r@);
        assert(ns =~= rs.insert(p as int, x@));
        proof {
            assert forall|a: int, b: int| 0 <= a < b < ns.len() implies !seq_lt(#[trigger] ns[b], #[trigger] ns[a]) by {
                if b == p {
                    assert(ns[a] == rs[a]);
                } else if a == p {
                    assert(ns[b] == rs[b - 1]);
                    lemma_lt_asymmetric(x@, rs[b - 1]);
                } else if a < p && b > p {
                    assert(ns[a] == rs[a]);
                    assert(ns[b] == rs[b - 1]);
                } else if b < p {
                    assert(ns[a] == rs[a]);
                    assert(ns[b] == rs[b]);
                } else {
                    assert(ns[a] == rs[a - 1]);
                    assert(ns[b] == rs[b - 1]);
                }
            }
            lemma_insert_multiset(rs, p as int, x@);
            let vs = string_views(v@);
            assert(vs.take(i + 1) =~= vs.take(i as int).push(x@));
            vs.take(i as int).to_multiset_ensures();
        }
        i += 1;
    }
    assert(string_views(v@).take(v@.len() as int) =~= string_views(v@));
    r
}

} // verus!
