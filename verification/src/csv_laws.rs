//! What the CSV rows of a table read back as.

use vstd::prelude::*;

use crate::csv_io::{
    cell, context_column, field, first_context_header, first_key_header, has_context, header_name,
    header_row, is_context_header, is_key_header, is_locale_column, key_column, key_row,
    locale_columns, locale_names, read_rows, row_translations, table_read, table_rows, CsvTable,
    csv_encoding, csv_field, csv_line, has_bom, join_commas, needs_quotes, readable_rows,
    records_of,
};
use crate::text::{
    utf8, utf8_char, lemma_take_push_contains, lemma_trim_noop, lemma_trim_twice, lower, string_views, trim,
};

verus! {

// ---------------------------------------------------------------------------
// The header row
// ---------------------------------------------------------------------------

/// The name of the key column that a table is written with.
spec fn key_title(polyglot: bool) -> Seq<char> {
    if polyglot {
        "STRING ID"@
    } else {
        "key"@
    }
}

/// The name of the context column that a table is written with.
spec fn context_title(polyglot: bool) -> Seq<char> {
    if polyglot {
        "DESCRIPTION"@
    } else {
        "context"@
    }
}

proof fn lemma_titles(polyglot: bool)
    ensures
        is_key_header(header_name(key_title(polyglot))),
        is_context_header(header_name(context_title(polyglot))),
        !is_context_header(header_name(key_title(polyglot))),
{
    reveal_strlit("STRING ID");
    reveal_strlit("key");
    reveal_strlit("DESCRIPTION");
    reveal_strlit("context");
    reveal_strlit("string id");
    reveal_strlit("description");
    reveal_strlit("comment");
    reveal_strlit("comments");
    reveal_strlit("desc");
    reveal_strlit("notes");
    let k = key_title(polyglot);
    let c = context_title(polyglot);
    lemma_trim_noop(k);
    lemma_trim_noop(c);
    if polyglot {
        assert(lower(k) =~= "string id"@);
        assert(lower(c) =~= "description"@);
    } else {
        assert(lower(k) =~= "key"@);
        assert(lower(c) =~= "context"@);
    }
}

/// A locale name that a header gives back unchanged: not empty, trimmed,
/// and neither a key header nor a context header.
pub open spec fn plain_locale(l: Seq<char>) -> bool {
    &&& l.len() > 0
    &&& trim(l) == l
    &&& !is_key_header(header_name(l))
    &&& !is_context_header(header_name(l))
}

/// The column of the first locale in a header row.
spec fn first_locale_column(has_context: bool) -> int {
    if has_context {
        2
    } else {
        1
    }
}

proof fn lemma_no_context_header(hs: Seq<Seq<char>>, i: int)
    requires
        1 <= i <= hs.len(),
        forall|j: int| 1 <= j < hs.len() ==> !is_context_header(#[trigger] header_name(hs[j])),
    ensures
        first_context_header(hs, 0, i) == hs.len(),
    decreases hs.len() - i,
{
    if i < hs.len() {
        assert(!is_context_header(header_name(hs[i])));
        lemma_no_context_header(hs, i + 1);
    }
}

/// The columns of a header row that the table's rows are written with.
proof fn lemma_header_columns(locales: Seq<Seq<char>>, has_context: bool, polyglot: bool, m: int)
    requires
        forall|i: int| 0 <= i < locales.len() ==> plain_locale(#[trigger] locales[i]),
        0 <= m <= header_row(locales, has_context, polyglot).len(),
    ensures
        ({
            let hs = header_row(locales, has_context, polyglot);
            let off = first_locale_column(has_context);
            &&& hs.len() == off + locales.len()
            &&& key_column(hs) == 0
            &&& context_column(hs) == if has_context {
                Some(1int)
            } else {
                None
            }
            &&& locale_columns(hs, m) == Seq::new(
                (if m < off {
                    0
                } else {
                    m - off
                }) as nat,
                |j: int| (off + j, locales[j]),
            )
        }),
    decreases m,
{
    let hs = header_row(locales, has_context, polyglot);
    let off = first_locale_column(has_context);
    lemma_titles(polyglot);
    assert(hs[0] == key_title(polyglot));
    assert(first_key_header(hs, 0) == 0);
    assert forall|j: int| off <= j < hs.len() implies #[trigger] hs[j] == locales[j - off] by {}
    if has_context {
        assert(hs[1] == context_title(polyglot));
        assert(first_context_header(hs, 0, 1) == 1);
        assert(first_context_header(hs, 0, 0) == 1);
    } else {
        assert forall|j: int| 1 <= j < hs.len() implies !is_context_header(
            #[trigger] header_name(hs[j]),
        ) by {
            assert(hs[j] == locales[j - 1]);
        }
        lemma_no_context_header(hs, 1);
        assert(first_context_header(hs, 0, 0) == first_context_header(hs, 0, 1));
    }
    if m > 0 {
        lemma_header_columns(locales, has_context, polyglot, m - 1);
        let i = m - 1;
        if i < off {
            assert(!is_locale_column(hs, i));
            assert(locale_columns(hs, m) =~= Seq::<(int, Seq<char>)>::empty());
        } else {
            assert(hs[i] == locales[i - off]);
            assert(plain_locale(locales[i - off]));
            assert(is_locale_column(hs, i));
            assert(locale_columns(hs, m) =~= Seq::new(
                (m - off) as nat,
                |j: int| (off + j, locales[j]),
            ));
        }
    } else {
        assert(locale_columns(hs, 0) =~= Seq::<(int, Seq<char>)>::empty());
    }
}

/// A header row written for plain locales reads back as those locales.
proof fn lemma_header_locales(locales: Seq<Seq<char>>, has_context: bool, polyglot: bool)
    requires
        forall|i: int| 0 <= i < locales.len() ==> plain_locale(#[trigger] locales[i]),
    ensures
        locale_names(header_row(locales, has_context, polyglot)) == locales,
{
    let hs = header_row(locales, has_context, polyglot);
    lemma_header_columns(locales, has_context, polyglot, hs.len() as int);
    assert(locale_names(hs) =~= locales);
}

// ---------------------------------------------------------------------------
// The rows of the keys
// ---------------------------------------------------------------------------

/// The non-empty translations of `key` into the first `m` locales.
spec fn written_cells(
    trans: Map<Seq<char>, Map<Seq<char>, Seq<char>>>,
    key: Seq<char>,
    locales: Seq<Seq<char>>,
    m: int,
) -> Map<Seq<char>, Seq<char>> {
    Map::new(
        |l: Seq<char>| locales.take(m).contains(l) && cell(trans, key, l).len() > 0,
        |l: Seq<char>| cell(trans, key, l),
    )
}

/// The locale columns of a header row with `off` columns before the locales.
spec fn written_columns(locales: Seq<Seq<char>>, off: int) -> Seq<(int, Seq<char>)> {
    Seq::new(locales.len(), |j: int| (off + j, locales[j]))
}

proof fn lemma_row_read_back(
    key: Seq<char>,
    locales: Seq<Seq<char>>,
    trans: Map<Seq<char>, Map<Seq<char>, Seq<char>>>,
    ctxs: Map<Seq<char>, Seq<char>>,
    has_context: bool,
    m: int,
)
    requires
        0 <= m <= locales.len(),
    ensures
        row_translations(
            key_row(key, locales, trans, ctxs, has_context),
            written_columns(locales, first_locale_column(has_context)),
            m,
        ) == written_cells(trans, key, locales, m),
    decreases m,
{
    let rec = key_row(key, locales, trans, ctxs, has_context);
    let off = first_locale_column(has_context);
    let cols = written_columns(locales, off);
    if m > 0 {
        lemma_row_read_back(key, locales, trans, ctxs, has_context, m - 1);
        lemma_take_push_contains(locales, m - 1);
        let l = locales[m - 1];
        assert(cols[m - 1] == (off + m - 1, l));
        assert(field(rec, off + m - 1) == cell(trans, key, l));
        let prev = row_translations(rec, cols, m - 1);
        let cur = row_translations(rec, cols, m);
        let want = written_cells(trans, key, locales, m);
        if cell(trans, key, l).len() > 0 {
            assert(cur == prev.insert(l, cell(trans, key, l)));
        } else {
            assert(cur == prev);
        }
        assert forall|x: Seq<char>| #[trigger] cur.contains_key(x) == want.contains_key(x) by {
            assert(locales.take((m - 1) + 1).contains(x) == (locales.take(m - 1).contains(x) || x
                == l));
        }
        assert(cur =~= want);
    } else {
        assert(row_translations(rec, cols, 0) =~= written_cells(trans, key, locales, 0));
    }
}

/// The translations of the first `m` keys.
spec fn read_translations(
    trans: Map<Seq<char>, Map<Seq<char>, Seq<char>>>,
    keys: Seq<Seq<char>>,
    locales: Seq<Seq<char>>,
    m: int,
) -> Map<Seq<char>, Map<Seq<char>, Seq<char>>> {
    Map::new(
        |k: Seq<char>| keys.take(m).contains(k),
        |k: Seq<char>| written_cells(trans, k, locales, locales.len() as int),
    )
}

/// The contexts of the first `m` keys.
spec fn read_contexts(ctxs: Map<Seq<char>, Seq<char>>, keys: Seq<Seq<char>>, m: int) -> Map<
    Seq<char>,
    Seq<char>,
> {
    Map::new(|k: Seq<char>| keys.take(m).contains(k) && ctxs.contains_key(k), |k: Seq<char>| ctxs[k])
}

/// The records written for `keys`.
spec fn key_records(
    keys: Seq<Seq<char>>,
    locales: Seq<Seq<char>>,
    trans: Map<Seq<char>, Map<Seq<char>, Seq<char>>>,
    ctxs: Map<Seq<char>, Seq<char>>,
    has_context: bool,
) -> Seq<Result<Seq<Seq<char>>, Seq<char>>> {
    Seq::new(keys.len(), |i: int| Ok(key_row(keys[i], locales, trans, ctxs, has_context)))
}

proof fn lemma_records_read_back(
    keys: Seq<Seq<char>>,
    locales: Seq<Seq<char>>,
    trans: Map<Seq<char>, Map<Seq<char>, Seq<char>>>,
    ctxs: Map<Seq<char>, Seq<char>>,
    has_context: bool,
    polyglot: bool,
    m: int,
)
    requires
        0 <= m <= keys.len(),
        forall|i: int| 0 <= i < locales.len() ==> plain_locale(#[trigger] locales[i]),
        forall|i: int| 0 <= i < keys.len() ==> trim(#[trigger] keys[i]) == keys[i] && keys[i].len() > 0,
        forall|k: Seq<char>| #[trigger] ctxs.contains_key(k) ==> trim(ctxs[k]) == ctxs[k] && ctxs[k].len() > 0,
        !has_context ==> ctxs == Map::<Seq<char>, Seq<char>>::empty(),
    ensures
        read_rows(
            key_records(keys, locales, trans, ctxs, has_context),
            header_row(locales, has_context, polyglot),
            m,
        ) == (read_translations(trans, keys, locales, m), read_contexts(ctxs, keys, m)),
    decreases m,
{
    let recs = key_records(keys, locales, trans, ctxs, has_context);
    let hs = header_row(locales, has_context, polyglot);
    if m > 0 {
        lemma_records_read_back(keys, locales, trans, ctxs, has_context, polyglot, m - 1);
        lemma_header_columns(locales, has_context, polyglot, hs.len() as int);
        lemma_take_push_contains(keys, m - 1);
        let k = keys[m - 1];
        let rec = key_row(k, locales, trans, ctxs, has_context);
        assert(recs[m - 1] == Ok::<Seq<Seq<char>>, Seq<char>>(rec));
        assert(field(rec, 0) == k);
        let cols = locale_columns(hs, hs.len() as int);
        assert(cols =~= written_columns(locales, first_locale_column(has_context)));
        lemma_row_read_back(k, locales, trans, ctxs, has_context, locales.len() as int);
        assert(key_column(hs) == 0);
        assert(trim(field(rec, key_column(hs))) == k);
        let prev = read_rows(recs, hs, m - 1);
        assert(read_rows(recs, hs, m).0 == prev.0.insert(
            k,
            row_translations(rec, cols, cols.len() as int),
        ));
        if has_context {
            let c = rec[1];
            if ctxs.contains_key(k) {
                assert(c == ctxs[k]);
            } else {
                assert(c == Seq::<char>::empty());
                lemma_trim_noop(c);
            }
        }
        assert forall|x: Seq<char>| #[trigger] keys.take(m).contains(x) == (keys.take(m - 1).contains(x)
            || x == k) by {
            assert(keys.take((m - 1) + 1).contains(x) == (keys.take(m - 1).contains(x) || x == k));
        }
        assert(read_rows(recs, hs, m).0 =~= read_translations(trans, keys, locales, m));
        assert(read_rows(recs, hs, m).1 =~= read_contexts(ctxs, keys, m));
    } else {
        assert(read_translations(trans, keys, locales, 0) =~= Map::empty());
        assert(read_contexts(ctxs, keys, 0) =~= Map::empty());
    }
}

// ---------------------------------------------------------------------------
// The bytes
// ---------------------------------------------------------------------------

/// The CSV bytes a table is written as do not start with a byte order
/// mark: they start with the name of the key column, `key` or `STRING ID`.
pub proof fn lemma_written_csv_has_no_bom(t: CsvTable, polyglot: bool)
    ensures
        !has_bom(csv_encoding(table_rows(t, polyglot))),
        csv_encoding(table_rows(t, polyglot)).len() > 0,
{
    reveal_strlit("STRING ID");
    reveal_strlit("key");
    let rows = table_rows(t, polyglot);
    let k = key_title(polyglot);
    let hs = rows[0];
    assert(hs[0] == k);
    assert(k.len() > 0 && (k[0] == 'k' || k[0] == 'S'));
    assert(!needs_quotes(k)) by {
        assert forall|i: int| 0 <= i < k.len() implies k[i] != ',' && k[i] != '"' && k[i] != '\r'
            && k[i] != '\n' by {}
    }
    let fields = hs.map_values(|f: Seq<char>| csv_field(f));
    assert(fields[0] == k);
    let body = join_commas(fields);
    assert(body.len() > 0 && body[0] == k[0]) by {
        if fields.len() > 1 {
            assert(body == fields[0] + seq![','] + join_commas(fields.drop_first()));
        }
    }
    let lines = rows.map_values(|r: Seq<Seq<char>>| csv_line(r));
    let text = lines.flatten();
    assert(lines[0] == csv_line(hs));
    assert(lines[0][0] == k[0]);
    assert(text == lines[0] + lines.drop_first().flatten());
    assert(text[0] == k[0]);
    assert(utf8(text) == utf8_char(text[0]) + utf8(text.drop_first()));
    assert(utf8_char(text[0]) == seq![(text[0] as u32) as u8]);
}

/// The rows a table is written as are rows the reader gives back.
pub proof fn lemma_table_rows_readable(t: CsvTable, polyglot: bool)
    ensures
        readable_rows(table_rows(t, polyglot)),
{
    reveal_strlit("STRING ID");
    reveal_strlit("key");
    let rows = table_rows(t, polyglot);
    let k = key_title(polyglot);
    assert(rows[0][0] == k);
    assert forall|i: int| 0 <= i < rows.len() implies (#[trigger] rows[i]).len() > 0 by {
        if i > 0 {
            let keys = string_views(t.keys@);
            assert(rows[i] == key_row(
                keys[i - 1],
                string_views(t.locales@),
                t.translations@,
                t.contexts@,
                has_context(t),
            ));
        }
    }
}

// ---------------------------------------------------------------------------
// The whole table
// ---------------------------------------------------------------------------

/// A table as reading a CSV file leaves it: its keys are those of its
/// translations, in ascending order, each trimmed and not empty; its
/// locales are plain; each translation is into one of its locales and not
/// empty; each context belongs to a key and is trimmed and not empty.
pub open spec fn normal_table(t: CsvTable) -> bool {
    let locs = string_views(t.locales@);
    &&& t.wf()
    &&& string_views(t.keys@) == t.translations.key_seq()
    &&& forall|i: int| 0 <= i < locs.len() ==> plain_locale(#[trigger] locs[i])
    &&& forall|k: Seq<char>| #[trigger]
        t.translations@.contains_key(k) ==> trim(k) == k && k.len() > 0
    &&& forall|k: Seq<char>, l: Seq<char>|
        t.translations@.contains_key(k) && #[trigger] t.translations@[k].contains_key(l)
            ==> locs.contains(l) && t.translations@[k][l].len() > 0
    &&& forall|k: Seq<char>| #[trigger]
        t.contexts@.contains_key(k) ==> t.translations@.contains_key(k) && trim(t.contexts@[k])
            == t.contexts@[k] && t.contexts@[k].len() > 0
}

/// Reading back the CSV rows that a table is written as gives the table
/// again: the same locales, keys, translations and contexts, with either
/// kind of headers. It holds for a table as reading leaves one
/// (`normal_table`).
pub proof fn lemma_rows_read_back(t: CsvTable, back: CsvTable, polyglot: bool)
    requires
        normal_table(t),
        table_read(back, table_rows(t, polyglot)[0], records_of(table_rows(t, polyglot))),
    ensures
        string_views(back.locales@) == string_views(t.locales@),
        string_views(back.keys@) == string_views(t.keys@),
        back.translations@ == t.translations@,
        back.contexts@ == t.contexts@,
{
    let locs = string_views(t.locales@);
    let keys = string_views(t.keys@);
    let trans = t.translations@;
    let ctxs = t.contexts@;
    let hc = has_context(t);
    let rows = table_rows(t, polyglot);
    let n = keys.len() as int;
    t.translations.lemma_view();
    assert(rows[0] == header_row(locs, hc, polyglot));
    assert(records_of(rows) =~= key_records(keys, locs, trans, ctxs, hc));
    assert forall|i: int| 0 <= i < keys.len() implies trim(#[trigger] keys[i]) == keys[i]
        && keys[i].len() > 0 by {
        assert(trans.contains_key(t.translations.key_seq()[i]));
    }
    lemma_records_read_back(keys, locs, trans, ctxs, hc, polyglot, n);
    lemma_header_locales(locs, hc, polyglot);
    assert(keys.take(n) =~= keys);
    assert(read_translations(trans, keys, locs, n) =~= trans) by {
        assert forall|k: Seq<char>| #[trigger] trans.contains_key(k) implies written_cells(
            trans,
            k,
            locs,
            locs.len() as int,
        ) == trans[k] by {
            assert(locs.take(locs.len() as int) =~= locs);
            assert(written_cells(trans, k, locs, locs.len() as int) =~= trans[k]);
        }
        assert forall|k: Seq<char>| #[trigger] keys.contains(k) == trans.contains_key(k) by {
            assert(keys.to_set().contains(k) == keys.contains(k));
        }
    }
    assert(read_contexts(ctxs, keys, n) =~= ctxs);
    assert(back.translations@.dom() == t.translations@.dom());
    back.translations.lemma_same_keys(&t.translations);
}

// ---------------------------------------------------------------------------
// What reading gives
// ---------------------------------------------------------------------------

proof fn lemma_locale_columns_plain(hs: Seq<Seq<char>>, m: int)
    requires
        0 <= m <= hs.len(),
    ensures
        forall|i: int|
            0 <= i < locale_columns(hs, m).len() ==> plain_locale(#[trigger] locale_columns(hs, m)[i].1),
    decreases m,
{
    if m > 0 {
        lemma_locale_columns_plain(hs, m - 1);
        let c = m - 1;
        if is_locale_column(hs, c) {
            lemma_trim_twice(hs[c]);
            assert(header_name(trim(hs[c])) == header_name(hs[c]));
            assert(plain_locale(trim(hs[c])));
        }
        assert forall|i: int| 0 <= i < locale_columns(hs, m).len() implies plain_locale(
            #[trigger] locale_columns(hs, m)[i].1,
        ) by {
            if i < locale_columns(hs, m - 1).len() {
                assert(locale_columns(hs, m)[i] == locale_columns(hs, m - 1)[i]);
            }
        }
    }
}

/// Each translation of a row is into one of `names` and is not empty.
spec fn row_normal(row: Map<Seq<char>, Seq<char>>, names: Seq<Seq<char>>) -> bool {
    forall|l: Seq<char>| #[trigger] row.contains_key(l) ==> names.contains(l) && row[l].len() > 0
}

proof fn lemma_row_normal(rec: Seq<Seq<char>>, cols: Seq<(int, Seq<char>)>, m: int)
    requires
        0 <= m <= cols.len(),
    ensures
        row_normal(row_translations(rec, cols, m), cols.map_values(|c: (int, Seq<char>)| c.1)),
    decreases m,
{
    let names = cols.map_values(|c: (int, Seq<char>)| c.1);
    if m > 0 {
        lemma_row_normal(rec, cols, m - 1);
        assert(names[m - 1] == cols[m - 1].1);
    }
}

/// Every key read is trimmed and not empty, its translations are into the
/// locales of the header and not empty, and every context read belongs to a
/// key read and is trimmed and not empty.
spec fn rows_normal(
    rows: (Map<Seq<char>, Map<Seq<char>, Seq<char>>>, Map<Seq<char>, Seq<char>>),
    names: Seq<Seq<char>>,
) -> bool {
    &&& forall|k: Seq<char>| #[trigger]
        rows.0.contains_key(k) ==> trim(k) == k && k.len() > 0 && row_normal(rows.0[k], names)
    &&& forall|k: Seq<char>| #[trigger]
        rows.1.contains_key(k) ==> rows.0.contains_key(k) && trim(rows.1[k]) == rows.1[k]
            && rows.1[k].len() > 0
}

proof fn lemma_read_rows_normal(recs: Seq<Result<Seq<Seq<char>>, Seq<char>>>, hs: Seq<Seq<char>>, m: int)
    requires
        0 <= m <= recs.len(),
    ensures
        rows_normal(read_rows(recs, hs, m), locale_names(hs)),
    decreases m,
{
    if m > 0 {
        lemma_read_rows_normal(recs, hs, m - 1);
        match recs[m - 1] {
            Err(_) => {},
            Ok(rec) => {
                let key = trim(field(rec, key_column(hs)));
                lemma_trim_twice(field(rec, key_column(hs)));
                let cols = locale_columns(hs, hs.len() as int);
                lemma_row_normal(rec, cols, cols.len() as int);
                match context_column(hs) {
                    Some(ci) => {
                        if ci < rec.len() {
                            lemma_trim_twice(rec[ci]);
                        }
                    },
                    None => {},
                }
            },
        }
    }
}

/// A table read from a header row and records is a table as reading leaves
/// one: what `lemma_rows_read_back` asks of a table. So writing a table
/// that was read and reading it back gives the same table.
pub proof fn lemma_read_is_normal(t: CsvTable, hs: Seq<Seq<char>>, recs: Seq<Result<Seq<Seq<char>>, Seq<char>>>)
    requires
        table_read(t, hs, recs),
    ensures
        normal_table(t),
{
    let locs = string_views(t.locales@);
    lemma_locale_columns_plain(hs, hs.len() as int);
    assert forall|i: int| 0 <= i < locs.len() implies plain_locale(#[trigger] locs[i]) by {
        assert(locs[i] == locale_names(hs)[i]);
        assert(locale_names(hs)[i] == locale_columns(hs, hs.len() as int)[i].1);
    }
    lemma_read_rows_normal(recs, hs, recs.len() as int);
    let trans = t.translations@;
    assert forall|k: Seq<char>, l: Seq<char>|
        trans.contains_key(k) && #[trigger] trans[k].contains_key(l) implies locs.contains(l)
        && trans[k][l].len() > 0 by {
        assert(row_normal(trans[k], locale_names(hs)));
    }
}

// ---------------------------------------------------------------------------
// Context headers
// ---------------------------------------------------------------------------

proof fn lemma_locale_columns_are(hs: Seq<Seq<char>>, m: int)
    requires
        0 <= m <= hs.len(),
    ensures
        forall|j: int|
            0 <= j < locale_columns(hs, m).len() ==> 0 <= (#[trigger] locale_columns(hs, m)[j]).0 < hs.len()
                && is_locale_column(hs, locale_columns(hs, m)[j].0) && locale_columns(hs, m)[j].1 == trim(
                hs[locale_columns(hs, m)[j].0],
            ),
    decreases m,
{
    if m > 0 {
        lemma_locale_columns_are(hs, m - 1);
        assert forall|j: int| 0 <= j < locale_columns(hs, m).len() implies 0 <= (
        #[trigger] locale_columns(hs, m)[j]).0 < hs.len() && is_locale_column(
            hs,
            locale_columns(hs, m)[j].0,
        ) && locale_columns(hs, m)[j].1 == trim(hs[locale_columns(hs, m)[j].0]) by {
            if j < locale_columns(hs, m - 1).len() {
                assert(locale_columns(hs, m)[j] == locale_columns(hs, m - 1)[j]);
            }
        }
    }
}

/// No locale read from a header row is named (once trimmed and in ASCII
/// lower case) `context`, `description`, `comment`, `comments`, `desc` or
/// `notes`: a column with such a header never holds a locale.
pub proof fn lemma_context_headers_hold_no_locale(hs: Seq<Seq<char>>)
    ensures
        forall|j: int|
            0 <= j < locale_names(hs).len() ==> {
                let n = lower(trim(#[trigger] locale_names(hs)[j]));
                &&& n != "context"@
                &&& n != "description"@
                &&& n != "comment"@
                &&& n != "comments"@
                &&& n != "desc"@
                &&& n != "notes"@
            },
{
    let lc = locale_columns(hs, hs.len() as int);
    lemma_locale_columns_are(hs, hs.len() as int);
    assert forall|j: int| 0 <= j < locale_names(hs).len() implies {
        let n = lower(trim(#[trigger] locale_names(hs)[j]));
        &&& n != "context"@
        &&& n != "description"@
        &&& n != "comment"@
        &&& n != "comments"@
        &&& n != "desc"@
        &&& n != "notes"@
    } by {
        let c = lc[j].0;
        assert(locale_names(hs)[j] == lc[j].1);
        assert(is_locale_column(hs, c));
        lemma_trim_twice(hs[c]);
        assert(lower(trim(locale_names(hs)[j])) == header_name(hs[c]));
    }
}

proof fn lemma_first_context_from(hs: Seq<Seq<char>>, c: int, j: int)
    requires
        0 <= j <= c < hs.len(),
        c != key_column(hs),
        is_context_header(header_name(hs[c])),
        forall|i: int| 0 <= i < c && i != key_column(hs) ==> !is_context_header(#[trigger] header_name(hs[i])),
    ensures
        first_context_header(hs, key_column(hs), j) == c,
    decreases c - j,
{
    if j < c {
        lemma_first_context_from(hs, c, j + 1);
    }
}

/// The context column is the first column, other than the key column,
/// whose header (trimmed, in ASCII lower case) is `context`,
/// `description`, `comment`, `comments`, `desc` or `notes`.
pub proof fn lemma_context_column_is_first_context_header(hs: Seq<Seq<char>>, c: int)
    requires
        0 <= c < hs.len(),
        c != key_column(hs),
        ({
            let n = lower(trim(hs[c]));
            n == "context"@ || n == "description"@ || n == "comment"@ || n == "comments"@ || n
                == "desc"@ || n == "notes"@
        }),
        forall|i: int|
            0 <= i < c && i != key_column(hs) ==> {
                let n = lower(trim(#[trigger] hs[i]));
                &&& n != "context"@
                &&& n != "description"@
                &&& n != "comment"@
                &&& n != "comments"@
                &&& n != "desc"@
                &&& n != "notes"@
            },
    ensures
        context_column(hs) == Some(c),
{
    assert forall|i: int| 0 <= i < c && i != key_column(hs) implies !is_context_header(
        #[trigger] header_name(hs[i]),
    ) by {
        assert(hs[i] == hs[i]);
    }
    lemma_first_context_from(hs, c, 0);
}

} // verus!
