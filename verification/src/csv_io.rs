//! The translation table and its CSV form: a header row (key column,
//! optional context column, one column per locale), then one row per key.

use vstd::prelude::*;

use crate::csv_laws::{
    lemma_rows_read_back, lemma_table_rows_readable, lemma_written_csv_has_no_bom, normal_table,
};
use crate::ftl::{is_valid_ftl_id, valid_ftl_id};
use crate::sorted_map::SortedMap;
use crate::text::{
    chars_eq, chars_of, lower, lower_chars, string_of, string_views, trim, trim_bounds, trim_chars,
    trim_string, utf8,
};

verus! {

// ---------------------------------------------------------------------------
// The csv crate
// ---------------------------------------------------------------------------

/// `csv::Error`, an error of the `csv` crate.
#[verifier::external_type_specification]
#[verifier::external_body]
pub struct ExCsvError(csv::Error);

/// The chars of each field of a record.
pub open spec fn fields_view(f: Seq<String>) -> Seq<Seq<char>> {
    f.map_values(|s: String| s@)
}

/// Each record: the chars of each of its fields, or the message of why it
/// could not be read.
pub open spec fn records_view(rows: Seq<Result<Vec<String>, String>>) -> Seq<Result<Seq<Seq<char>>, Seq<char>>> {
    rows.map_values(
        |r: Result<Vec<String>, String>|
            match r {
                Ok(v) => Ok(fields_view(v@)),
                Err(m) => Err(m@),
            },
    )
}

/// What the `csv` crate reads from `data` (comma-separated, rows of any
/// length): `None` when the header row cannot be read, otherwise the header
/// fields and each following record (for a record it rejects, the message
/// of its error, as `csv::Error` displays it).
pub uninterp spec fn csv_records(data: Seq<u8>) -> Option<
    (Seq<Seq<char>>, Seq<Result<Seq<Seq<char>>, Seq<char>>>),
>;

/// A field needs quotes when it holds a delimiter, a quote or a line end.
pub open spec fn needs_quotes(f: Seq<char>) -> bool {
    f.contains(',') || f.contains('"') || f.contains('\r') || f.contains('\n')
}

/// A field with each quote doubled.
pub open spec fn double_quotes(f: Seq<char>) -> Seq<char> {
    f.map_values(
        |c: char|
            if c == '"' {
                seq!['"', '"']
            } else {
                seq![c]
            },
    ).flatten()
}

/// A field as written: in quotes, with its quotes doubled, where it needs
/// quotes; else as it is.
pub open spec fn csv_field(f: Seq<char>) -> Seq<char> {
    if needs_quotes(f) {
        seq!['"'] + double_quotes(f) + seq!['"']
    } else {
        f
    }
}

/// Pieces joined by commas.
pub open spec fn join_commas(parts: Seq<Seq<char>>) -> Seq<char>
    decreases parts.len(),
{
    if parts.len() == 0 {
        seq![]
    } else if parts.len() == 1 {
        parts[0]
    } else {
        parts[0] + seq![','] + join_commas(parts.drop_first())
    }
}

/// A record as written: its fields joined by commas (a record that would
/// give no text at all, such as one empty field, is written as `""`), then
/// `\n`.
pub open spec fn csv_line(rec: Seq<Seq<char>>) -> Seq<char> {
    let body = join_commas(rec.map_values(|f: Seq<char>| csv_field(f)));
    (if body.len() == 0 {
        seq!['"', '"']
    } else {
        body
    }) + seq!['\n']
}

/// What the `csv` crate writes for `rows` with delimiter `,`, quote `"`,
/// quotes escaped by doubling, `QuoteStyle::Necessary` and the terminator
/// `\n`: the UTF-8 bytes of each record as `csv_line` gives it.
pub open spec fn csv_encoding(rows: Seq<Seq<Seq<char>>>) -> Seq<u8> {
    utf8(rows.map_values(|r: Seq<Seq<char>>| csv_line(r)).flatten())
}

/// The records below the header row of `rows`, each of them readable.
pub open spec fn records_of(rows: Seq<Seq<Seq<char>>>) -> Seq<Result<Seq<Seq<char>>, Seq<char>>> {
    rows.skip(1).map_values(|r: Seq<Seq<char>>| Ok(r))
}

/// Rows that the writer gives back unchanged when read: at least one row,
/// no row without fields (the writer writes such a row as one empty field),
/// and no byte order mark char opening the first field (the reader drops a
/// byte order mark at the start).
pub open spec fn readable_rows(rows: Seq<Seq<Seq<char>>>) -> bool {
    &&& rows.len() > 0
    &&& forall|i: int| 0 <= i < rows.len() ==> (#[trigger] rows[i]).len() > 0
    &&& !(rows[0][0].len() > 0 && rows[0][0][0] == '\u{FEFF}')
}

/// Reads `data` with `csv::ReaderBuilder` (delimiter `,`, `flexible(true)`):
/// `Reader::headers`, then every item of `Reader::records`, a record that
/// cannot be read given as the message of its error. The contract names
/// the result `csv_records(data)`; it says nothing of which error comes
/// back when the header row cannot be read. What the writer writes
/// (`csv_encoding`, RFC 4180 with quotes only where needed) the reader,
/// which takes `"` as the quote, a doubled quote as a quote, `\r`, `\n`
/// and `\r\n` as line ends and a byte order mark at the start as
/// nothing, reads back as the same header and records.
#[verifier::external_body]
fn csv_read_records(data: &[u8]) -> (r: Result<(Vec<String>, Vec<Result<Vec<String>, String>>), csv::Error>)
    ensures
        r is Ok == csv_records(data@) is Some,
        r matches Ok(x) ==> csv_records(data@) == Some((fields_view(x.0@), records_view(x.1@))),
        r matches Ok(x) ==> forall|rows: Seq<Seq<Seq<char>>>|
            readable_rows(rows) && data@ == #[trigger] csv_encoding(rows) ==> fields_view(x.0@)
                == rows[0] && records_view(x.1@) == records_of(rows),
        r is Err ==> forall|rows: Seq<Seq<Seq<char>>>|
            readable_rows(rows) ==> data@ != #[trigger] csv_encoding(rows),
{
    let mut rdr = csv::ReaderBuilder::new().delimiter(b',').flexible(true).from_reader(data);
    let header = rdr.headers()?.iter().map(|f| f.to_string()).collect();
    let mut rows = Vec::new();
    for r in rdr.records() {
        rows.push(match r {
            Ok(rec) => Ok(rec.iter().map(|f| f.to_string()).collect()),
            Err(e) => Err(format!("{e}")),
        });
    }
    Ok((header, rows))
}

/// Writes `rows` with `csv::WriterBuilder` (delimiter `,`,
/// `QuoteStyle::Necessary`) into a `Vec<u8>`: `Writer::write_record` for
/// each row, then `Writer::into_inner`. The bytes of a success are
/// `csv_encoding(rows)`: the writer quotes a field only when it holds the
/// delimiter, the quote or a line end (`\r` is quoted too), doubles the
/// quotes inside, writes `""` for a record that would give no bytes, and
/// ends each record with `\n`. The writer is not flexible: it fails on a
/// record whose length differs from the first one's, and otherwise only
/// when the underlying writer fails, which a `Vec<u8>` does not; so rows of
/// one length are written.
#[verifier::external_body]
fn csv_write_records(rows: &Vec<Vec<String>>) -> (r: Result<Vec<u8>, csv::Error>)
    ensures
        (forall|i: int| 0 <= i < rows@.len() ==> (#[trigger] rows@[i])@.len() == rows@[0]@.len())
            ==> r is Ok,
        r matches Ok(b) ==> b@ == csv_encoding(
            rows@.map_values(|row: Vec<String>| fields_view(row@)),
        ),
{
    let mut wtr = csv::WriterBuilder::new().delimiter(b',').quote_style(csv::QuoteStyle::Necessary).from_writer(Vec::new());
    for row in rows {
        wtr.write_record(row)?;
    }
    wtr.into_inner().map_err(|e| csv::Error::from(e.into_error()))
}

// ---------------------------------------------------------------------------
// The table
// ---------------------------------------------------------------------------

/// A translation table: locales (columns), keys (rows), the translation of
/// each key into each locale, and the context of each key.
pub struct CsvTable {
    pub locales: Vec<String>,
    pub keys: Vec<String>,
    pub translations: SortedMap<SortedMap<String>>,
    pub contexts: SortedMap<String>,
}

impl CsvTable {
    /// The maps of the table are well formed.
    pub open spec fn wf(&self) -> bool {
        &&& self.translations.wf()
        &&& self.contexts.wf()
        &&& forall|i: int|
            0 <= i < self.translations.val_seq().len() ==> (#[trigger] self.translations.val_seq()[i]).wf()
    }
}

/// Why a CSV table could not be read.
#[derive(Debug)]
pub enum CsvReadError {
    /// The `csv` crate could not read the header row.
    Csv(csv::Error),
    /// The header row is empty.
    NoHeaderRow,
}

// ---------------------------------------------------------------------------
// Byte order mark
// ---------------------------------------------------------------------------

/// `raw` starts with the UTF-8 byte order mark.
pub open spec fn has_bom(raw: Seq<u8>) -> bool {
    raw.len() >= 3 && raw[0] == 0xEF && raw[1] == 0xBB && raw[2] == 0xBF
}

/// `raw` without a leading UTF-8 byte order mark.
pub open spec fn without_bom(raw: Seq<u8>) -> Seq<u8> {
    if has_bom(raw) {
        raw.skip(3)
    } else {
        raw
    }
}

/// Drops a leading UTF-8 byte order mark, and says whether there was one.
pub fn strip_bom(raw: &[u8]) -> (r: (&[u8], bool))
    ensures
        r.0@ == without_bom(raw@),
        r.1 == has_bom(raw@),
{
    if raw.len() >= 3 && raw[0] == 0xEF && raw[1] == 0xBB && raw[2] == 0xBF {
        let rest = vstd::slice::slice_subrange(raw, 3, raw.len());
        assert(rest@ =~= raw@.skip(3));
        (rest, true)
    } else {
        (raw, false)
    }
}

// ---------------------------------------------------------------------------
// Reading: the header row
// ---------------------------------------------------------------------------

/// A header as it is matched: trimmed, ASCII lower case.
pub open spec fn header_name(h: Seq<char>) -> Seq<char> {
    lower(trim(h))
}

/// A header that names the key column.
pub open spec fn is_key_header(n: Seq<char>) -> bool {
    n == "key"@ || n == "string id"@ || n == "string_id"@ || n == "id"@ || n == "msgctxt"@
}

/// A header that names the context column.
pub open spec fn is_context_header(n: Seq<char>) -> bool {
    n == "context"@ || n == "description"@ || n == "comment"@ || n == "comments"@ || n
        == "desc"@ || n == "notes"@
}

/// From column `i` on, the first key header, or `hs.len()`.
pub open spec fn first_key_header(hs: Seq<Seq<char>>, i: int) -> int
    decreases hs.len() - i,
{
    if i < 0 || i >= hs.len() {
        hs.len() as int
    } else if is_key_header(header_name(hs[i])) {
        i
    } else {
        first_key_header(hs, i + 1)
    }
}

/// The key column: the first key header, else the first column.
pub open spec fn key_column(hs: Seq<Seq<char>>) -> int {
    if first_key_header(hs, 0) < hs.len() {
        first_key_header(hs, 0)
    } else {
        0
    }
}

/// From column `i` on, the first context header other than the key
/// column, or `hs.len()`.
pub open spec fn first_context_header(hs: Seq<Seq<char>>, key: int, i: int) -> int
    decreases hs.len() - i,
{
    if i < 0 || i >= hs.len() {
        hs.len() as int
    } else if i != key && is_context_header(header_name(hs[i])) {
        i
    } else {
        first_context_header(hs, key, i + 1)
    }
}

/// The context column, if there is one.
pub open spec fn context_column(hs: Seq<Seq<char>>) -> Option<int> {
    let f = first_context_header(hs, key_column(hs), 0);
    if f < hs.len() {
        Some(f)
    } else {
        None
    }
}

/// Column `i` holds a locale: neither the key nor the context column, a
/// non-empty header, and no other key or context header.
pub open spec fn is_locale_column(hs: Seq<Seq<char>>, i: int) -> bool {
    &&& i != key_column(hs)
    &&& context_column(hs) != Some(i)
    &&& trim(hs[i]).len() > 0
    &&& !is_context_header(header_name(hs[i]))
    &&& !is_key_header(header_name(hs[i]))
}

/// The locale columns among the first `n`: index and trimmed header.
pub open spec fn locale_columns(hs: Seq<Seq<char>>, n: int) -> Seq<(int, Seq<char>)>
    decreases n,
{
    if n <= 0 {
        seq![]
    } else {
        locale_columns(hs, n - 1) + if is_locale_column(hs, n - 1) {
            seq![(n - 1, trim(hs[n - 1]))]
        } else {
            seq![]
        }
    }
}

/// The names of the locale columns.
pub open spec fn locale_names(hs: Seq<Seq<char>>) -> Seq<Seq<char>> {
    locale_columns(hs, hs.len() as int).map_values(|c: (int, Seq<char>)| c.1)
}

fn chars_in(n: &Vec<char>, names: &[&str]) -> (b: bool)
    ensures
        b == exists|i: int| 0 <= i < names@.len() && n@ == (#[trigger] names@[i])@,
{
    let mut i: usize = 0;
    while i < names.len()
        invariant
            i <= names@.len(),
            forall|j: int| 0 <= j < i ==> n@ != (#[trigger] names@[j])@,
        decreases names@.len() - i,
    {
        let c = chars_of(names[i]);
        if chars_eq(n.as_slice(), c.as_slice()) {
            return true;
        }
        i += 1;
    }
    false
}

fn is_key_name(n: &Vec<char>) -> (b: bool)
    ensures
        b == is_key_header(n@),
{
    let names: [&str; 5] = ["key", "string id", "string_id", "id", "msgctxt"];
    let r = chars_in(n, names.as_slice());
    proof {
        if r {
            let i = choose|i: int| 0 <= i < names@.len() && n@ == (#[trigger] names@[i])@;
            assert(i == 0 || i == 1 || i == 2 || i == 3 || i == 4);
        } else {
            assert(n@ != names@[0]@);
            assert(n@ != names@[1]@);
            assert(n@ != names@[2]@);
            assert(n@ != names@[3]@);
            assert(n@ != names@[4]@);
        }
    }
    r
}

fn is_context_name(n: &Vec<char>) -> (b: bool)
    ensures
        b == is_context_header(n@),
{
    let names: [&str; 6] = ["context", "description", "comment", "comments", "desc", "notes"];
    let r = chars_in(n, names.as_slice());
    proof {
        if r {
            let i = choose|i: int| 0 <= i < names@.len() && n@ == (#[trigger] names@[i])@;
            assert(i == 0 || i == 1 || i == 2 || i == 3 || i == 4 || i == 5);
        } else {
            assert(n@ != names@[0]@);
            assert(n@ != names@[1]@);
            assert(n@ != names@[2]@);
            assert(n@ != names@[3]@);
            assert(n@ != names@[4]@);
            assert(n@ != names@[5]@);
        }
    }
    r
}

/// The locale columns as the reader keeps them.
pub open spec fn columns_view(c: Seq<(usize, String)>) -> Seq<(int, Seq<char>)> {
    c.map_values(|x: (usize, String)| (x.0 as int, x.1@))
}

/// The key column, the context column and the locale columns of a
/// non-empty header row.
fn header_columns(header: &Vec<String>) -> (r: (usize, Option<usize>, Vec<(usize, String)>))
    requires
        header@.len() > 0,
    ensures
        r.0 as int == key_column(fields_view(header@)),
        r.1 matches Some(c) ==> context_column(fields_view(header@)) == Some(c as int),
        r.1 is None ==> context_column(fields_view(header@)) is None,
        columns_view(r.2@) == locale_columns(fields_view(header@), header@.len() as int),
{
    let ghost hs = fields_view(header@);
    let n = header.len();
    // the header names, trimmed and in lower case
    let mut names: Vec<Vec<char>> = Vec::new();
    let mut i: usize = 0;
    while i < n
        invariant
            n == header@.len(),
            hs == fields_view(header@),
            i <= n,
            names@.len() == i,
            forall|j: int| 0 <= j < i ==> (#[trigger] names@[j])@ == header_name(hs[j]),
        decreases n - i,
    {
        let v = chars_of(header[i].as_str());
        let t = trim_chars(v.as_slice());
        names.push(lower_chars(t.as_slice()));
        i += 1;
    }
    // the key column
    let mut k: usize = 0;
    while k < n && !is_key_name(&names[k])
        invariant
            n == header@.len(),
            hs == fields_view(header@),
            names@.len() == n,
            forall|j: int| 0 <= j < n ==> (#[trigger] names@[j])@ == header_name(hs[j]),
            k <= n,
            first_key_header(hs, k as int) == first_key_header(hs, 0),
        decreases n - k,
    {
        k += 1;
    }
    let key = if k < n {
        k
    } else {
        0
    };
    // the context column
    let mut c: usize = 0;
    while c < n && !(c != key && is_context_name(&names[c]))
        invariant
            n == header@.len(),
            hs == fields_view(header@),
            names@.len() == n,
            forall|j: int| 0 <= j < n ==> (#[trigger] names@[j])@ == header_name(hs[j]),
            key as int == key_column(hs),
            c <= n,
            first_context_header(hs, key as int, c as int) == first_context_header(hs, key as int, 0),
        decreases n - c,
    {
        c += 1;
    }
    let context = if c < n {
        Some(c)
    } else {
        None
    };
    // the locale columns
    let mut cols: Vec<(usize, String)> = Vec::new();
    let mut i: usize = 0;
    while i < n
        invariant
            n == header@.len(),
            hs == fields_view(header@),
            names@.len() == n,
            forall|j: int| 0 <= j < n ==> (#[trigger] names@[j])@ == header_name(hs[j]),
            key as int == key_column(hs),
            context matches Some(cc) ==> context_column(hs) == Some(cc as int),
            context is None ==> context_column(hs) is None,
            i <= n,
            columns_view(cols@) == locale_columns(hs, i as int),
        decreases n - i,
    {
        let ghost before = columns_view(cols@);
        let is_context = match context {
            Some(cc) => cc == i,
            None => false,
        };
        if i != key && !is_context {
            let v = chars_of(header[i].as_str());
            let (a, b) = trim_bounds(v.as_slice(), 0, v.len());
            assert(v@.subrange(0, v@.len() as int) =~= v@);
            if a < b && !is_context_name(&names[i]) && !is_key_name(&names[i]) {
                cols.push((i, string_of(v.as_slice(), a, b)));
                assert(columns_view(cols@) =~= before.push((i as int, trim(hs[i as int]))));
            }
        }
        assert(locale_columns(hs, i + 1) =~= locale_columns(hs, i as int) + if is_locale_column(hs, i as int) {
            seq![(i as int, trim(hs[i as int]))]
        } else {
            seq![]
        });
        i += 1;
    }
    (key, context, cols)
}

// ---------------------------------------------------------------------------
// Reading: the records
// ---------------------------------------------------------------------------

/// Field `i` of a record; empty when the record is shorter.
pub open spec fn field(rec: Seq<Seq<char>>, i: int) -> Seq<char> {
    if 0 <= i < rec.len() {
        rec[i]
    } else {
        seq![]
    }
}

/// The translations of one record: for each of the first `m` locale
/// columns with a non-empty field, the locale and the field.
pub open spec fn row_translations(rec: Seq<Seq<char>>, cols: Seq<(int, Seq<char>)>, m: int) -> Map<
    Seq<char>,
    Seq<char>,
>
    decreases m,
{
    if m <= 0 {
        Map::empty()
    } else {
        let prev = row_translations(rec, cols, m - 1);
        if field(rec, cols[m - 1].0).len() > 0 {
            prev.insert(cols[m - 1].1, field(rec, cols[m - 1].0))
        } else {
            prev
        }
    }
}

/// The translations and contexts of the first `n` records. A record that
/// could not be read, or whose key is empty, is skipped; a later record
/// with the same key replaces the translations of an earlier one.
pub open spec fn read_rows(
    recs: Seq<Result<Seq<Seq<char>>, Seq<char>>>,
    hs: Seq<Seq<char>>,
    n: int,
) -> (Map<Seq<char>, Map<Seq<char>, Seq<char>>>, Map<Seq<char>, Seq<char>>)
    decreases n,
{
    if n <= 0 {
        (Map::empty(), Map::empty())
    } else {
        let prev = read_rows(recs, hs, n - 1);
        match recs[n - 1] {
            Err(_) => prev,
            Ok(rec) => {
                let key = trim(field(rec, key_column(hs)));
                if key.len() == 0 {
                    prev
                } else {
                    let cols = locale_columns(hs, hs.len() as int);
                    let ctxs = match context_column(hs) {
                        Some(ci) => if ci < rec.len() && trim(rec[ci]).len() > 0 {
                            prev.1.insert(key, trim(rec[ci]))
                        } else {
                            prev.1
                        },
                        None => prev.1,
                    };
                    (prev.0.insert(key, row_translations(rec, cols, cols.len() as int)), ctxs)
                }
            },
        }
    }
}

/// A field of a record, or `""` past its end.
fn field_str(rec: &Vec<String>, i: usize) -> (s: &str)
    ensures
        s@ == field(fields_view(rec@), i as int),
{
    if i < rec.len() {
        rec[i].as_str()
    } else {
        proof {
            reveal_strlit("");
        }
        ""
    }
}

fn record_translations(rec: &Vec<String>, cols: &Vec<(usize, String)>) -> (m: SortedMap<String>)
    ensures
        m.wf(),
        m@ == row_translations(fields_view(rec@), columns_view(cols@), cols@.len() as int),
{
    let mut m: SortedMap<String> = SortedMap::new();
    let mut j: usize = 0;
    while j < cols.len()
        invariant
            j <= cols@.len(),
            m.wf(),
            m@ == row_translations(fields_view(rec@), columns_view(cols@), j as int),
        decreases cols@.len() - j,
    {
        let (col, loc) = &cols[j];
        let val = field_str(rec, *col);
        assert(columns_view(cols@)[j as int] == (*col as int, loc@));
        if !val.is_empty() {
            m.insert(loc.clone(), val.to_owned());
        }
        j += 1;
    }
    m
}

/// `t` is the table read from header `hs` and records `recs`: its locales
/// are the locale columns, its translations and contexts those of the
/// records, its keys those of its translations, in ascending order.
pub open spec fn table_read(t: CsvTable, hs: Seq<Seq<char>>, recs: Seq<Result<Seq<Seq<char>>, Seq<char>>>) -> bool {
    let rows = read_rows(recs, hs, recs.len() as int);
    &&& t.wf()
    &&& string_views(t.locales@) == locale_names(hs)
    &&& t.translations@ == rows.0
    &&& t.contexts@ == rows.1
    &&& string_views(t.keys@) == t.translations.key_seq()
}

/// The table that a header row and the records below it give.
///
/// The key column is the first whose header is `key`, `string id`,
/// `string_id`, `id` or `msgctxt` (ignoring case and surrounding
/// whitespace), else the first column; the context column the first other
/// one headed `context`, `description`, `comment`, `comments`, `desc` or
/// `notes`; every other column with a non-empty header holds a locale.
/// Keys and contexts are trimmed; empty cells give no translation. Each
/// record is its fields, or the message of why it could not be read; such
/// a record is skipped.
pub fn table_from_csv_records(header: &Vec<String>, records: &Vec<Result<Vec<String>, String>>) -> (r:
    Result<CsvTable, CsvReadError>)
    ensures
        header@.len() == 0 <==> r matches Err(CsvReadError::NoHeaderRow),
        header@.len() > 0 ==> (r matches Ok(t) && table_read(
            t,
            fields_view(header@),
            records_view(records@),
        )),
{
    if header.len() == 0 {
        return Err(CsvReadError::NoHeaderRow);
    }
    let ghost hs = fields_view(header@);
    let ghost recs = records_view(records@);
    let (key, context, cols) = header_columns(header);
    let mut translations: SortedMap<SortedMap<String>> = SortedMap::new();
    let mut contexts: SortedMap<String> = SortedMap::new();
    let mut n: usize = 0;
    while n < records.len()
        invariant
            n <= records@.len(),
            hs == fields_view(header@),
            recs == records_view(records@),
            header@.len() > 0,
            key as int == key_column(hs),
            context matches Some(cc) ==> context_column(hs) == Some(cc as int),
            context is None ==> context_column(hs) is None,
            columns_view(cols@) == locale_columns(hs, header@.len() as int),
            translations.wf(),
            contexts.wf(),
            forall|i: int|
                0 <= i < translations.val_seq().len() ==> (#[trigger] translations.val_seq()[i]).wf(),
            translations@ == read_rows(recs, hs, n as int).0,
            contexts@ == read_rows(recs, hs, n as int).1,
        decreases records@.len() - n,
    {
        match &records[n] {
            Err(_) => {},
            Ok(rec) => {
                let ghost rv = fields_view(rec@);
                assert(recs[n as int] == Ok::<Seq<Seq<char>>, Seq<char>>(rv));
                let k = trim_string(field_str(rec, key));
                if !k.as_str().is_empty() {
                    match context {
                        Some(ci) => {
                            if ci < rec.len() {
                                let c = trim_string(rec[ci].as_str());
                                if !c.as_str().is_empty() {
                                    contexts.insert(k.clone(), c);
                                }
                            }
                        },
                        None => {},
                    }
                    let row = record_translations(rec, &cols);
                    let ghost old_vals = translations.val_seq();
                    translations.insert(k, row);
                    assert forall|i: int| 0 <= i < translations.val_seq().len() implies (
                    #[trigger] translations.val_seq()[i]).wf() by {
                        if translations.val_seq()[i] != row {
                            let j = choose|j: int| 0 <= j < old_vals.len() && old_vals[j] == translations.val_seq()[i];
                            assert(old_vals[j].wf());
                        }
                    }
                }
            },
        }
        n += 1;
    }
    // the keys, in ascending order
    let mut keys: Vec<String> = Vec::new();
    let count = translations.len();
    let mut i: usize = 0;
    while i < count
        invariant
            translations.wf(),
            count == translations.key_seq().len(),
            i <= count,
            string_views(keys@) == translations.key_seq().take(i as int),
        decreases count - i,
    {
        let ghost before = keys@;
        let k = translations.key_at(i).clone();
        keys.push(k);
        assert(keys@ =~= before.push(k));
        assert(string_views(keys@) =~= string_views(before).push(k@));
        assert(translations.key_seq().take(i + 1) =~= translations.key_seq().take(i as int).push(k@));
        i += 1;
    }
    assert(translations.key_seq().take(count as int) =~= translations.key_seq());
    let mut locales: Vec<String> = Vec::new();
    let mut j: usize = 0;
    while j < cols.len()
        invariant
            j <= cols@.len(),
            string_views(locales@) == columns_view(cols@).take(j as int).map_values(
                |c: (int, Seq<char>)| c.1,
            ),
        decreases cols@.len() - j,
    {
        let ghost before = locales@;
        let name = cols[j].1.clone();
        locales.push(name);
        assert(locales@ =~= before.push(name));
        assert(columns_view(cols@)[j as int].1 == name@);
        assert(string_views(locales@) =~= string_views(before).push(name@));
        assert(columns_view(cols@).take(j + 1) =~= columns_view(cols@).take(j as int).push(columns_view(cols@)[j as int]));
        assert(string_views(locales@) =~= columns_view(cols@).take(j + 1).map_values(
            |c: (int, Seq<char>)| c.1,
        ));
        j += 1;
    }
    assert(columns_view(cols@).take(cols@.len() as int) =~= columns_view(cols@));
    Ok(CsvTable { locales, keys, translations, contexts })
}

/// Reads a translation table from the bytes of a CSV file (a leading UTF-8
/// byte order mark is dropped). It fails when the header row cannot be
/// read or is empty; records that cannot be read are skipped. The bytes
/// that a table as reading leaves one (`normal_table`) is written as read
/// back as that table.
pub fn read_translations_csv(raw: &[u8]) -> (r: Result<CsvTable, CsvReadError>)
    ensures
        csv_records(without_bom(raw@)) is None <==> r matches Err(CsvReadError::Csv(_)),
        csv_records(without_bom(raw@)) matches Some((hs, recs)) ==> (hs.len() == 0 <==> r matches Err(
            CsvReadError::NoHeaderRow,
        )),
        csv_records(without_bom(raw@)) matches Some((hs, recs)) ==> (hs.len() > 0 ==> (r matches Ok(
            t,
        ) && table_read(t, hs, recs))),
        forall|t: CsvTable, polyglot: bool|
            normal_table(t) && raw@ == #[trigger] csv_encoding(table_rows(t, polyglot)) ==> (r matches Ok(
                back,
            ) && string_views(back.locales@) == string_views(t.locales@) && string_views(back.keys@)
                == string_views(t.keys@) && back.translations@ == t.translations@ && back.contexts@
                == t.contexts@),
{
    let (data, _had_bom) = strip_bom(raw);
    let res = csv_read_records(data);
    match res {
        Err(e) => {
            proof {
                assert forall|t: CsvTable, polyglot: bool|
                    normal_table(t) && raw@ == #[trigger] csv_encoding(table_rows(t, polyglot)) implies false by {
                    lemma_written_csv_has_no_bom(t, polyglot);
                    lemma_table_rows_readable(t, polyglot);
                    assert(data@ == csv_encoding(table_rows(t, polyglot)));
                }
            }
            Err(CsvReadError::Csv(e))
        },
        Ok((header, records)) => {
            let r = table_from_csv_records(&header, &records);
            proof {
                assert forall|t: CsvTable, polyglot: bool|
                    normal_table(t) && raw@ == #[trigger] csv_encoding(table_rows(t, polyglot)) implies (r matches Ok(
                    back,
                ) && string_views(back.locales@) == string_views(t.locales@) && string_views(back.keys@)
                    == string_views(t.keys@) && back.translations@ == t.translations@ && back.contexts@
                    == t.contexts@) by {
                    lemma_written_csv_has_no_bom(t, polyglot);
                    lemma_table_rows_readable(t, polyglot);
                    let rows = table_rows(t, polyglot);
                    assert(data@ == csv_encoding(rows));
                    assert(fields_view(header@) == rows[0]);
                    assert(records_view(records@) == records_of(rows));
                    assert(header@.len() == rows[0].len());
                    match r {
                        Ok(back) => {
                            lemma_rows_read_back(t, back, polyglot);
                        },
                        Err(_) => {},
                    }
                }
            }
            r
        },
    }
}

// ---------------------------------------------------------------------------
// Warnings
// ---------------------------------------------------------------------------

/// A warning about a CSV file.
pub enum CsvWarning {
    /// No column is headed as a key column: the first one, with this
    /// header, is taken.
    KeyColumn(String),
    /// The column at this index (from 0) has an empty header and holds no
    /// locale.
    EmptyHeader(usize),
    /// The record at this index (from 0, the first one below the header
    /// row) could not be read, for this reason, and is skipped.
    UnreadableRecord(usize, String),
    /// The key of the record at this index is not a valid identifier, so
    /// it is left out of the `.ftl` files.
    InvalidKey(String, usize),
}

/// A warning about a CSV file, as a value.
pub enum CsvWarningView {
    KeyColumn(Seq<char>),
    EmptyHeader(int),
    UnreadableRecord(int, Seq<char>),
    InvalidKey(Seq<char>, int),
}

impl View for CsvWarning {
    type V = CsvWarningView;

    open spec fn view(&self) -> CsvWarningView {
        match self {
            CsvWarning::KeyColumn(h) => CsvWarningView::KeyColumn(h@),
            CsvWarning::EmptyHeader(i) => CsvWarningView::EmptyHeader(*i as int),
            CsvWarning::UnreadableRecord(i, m) => CsvWarningView::UnreadableRecord(*i as int, m@),
            CsvWarning::InvalidKey(k, i) => CsvWarningView::InvalidKey(k@, *i as int),
        }
    }
}

/// The view of each warning.
pub open spec fn csv_warning_views(ws: Seq<CsvWarning>) -> Seq<CsvWarningView> {
    ws.map_values(|w: CsvWarning| w@)
}

/// The columns among the first `n` that are neither the key nor the
/// context column and have an empty header.
pub open spec fn empty_header_warnings(hs: Seq<Seq<char>>, n: int) -> Seq<CsvWarningView>
    decreases n,
{
    if n <= 0 {
        seq![]
    } else {
        empty_header_warnings(hs, n - 1) + if n - 1 != key_column(hs) && context_column(hs) != Some(
            n - 1,
        ) && trim(hs[n - 1]).len() == 0 {
            seq![CsvWarningView::EmptyHeader(n - 1)]
        } else {
            seq![]
        }
    }
}

/// The warnings about a non-empty header row: no key header, then the
/// empty headers.
pub open spec fn header_warnings(hs: Seq<Seq<char>>) -> Seq<CsvWarningView> {
    (if first_key_header(hs, 0) >= hs.len() {
        seq![CsvWarningView::KeyColumn(hs[0])]
    } else {
        seq![]
    }) + empty_header_warnings(hs, hs.len() as int)
}

/// The warnings about the first `n` records: each one that could not be
/// read, and each key that is not empty and not a valid identifier.
pub open spec fn record_warnings(hs: Seq<Seq<char>>, recs: Seq<Result<Seq<Seq<char>>, Seq<char>>>, n: int) -> Seq<
    CsvWarningView,
>
    decreases n,
{
    if n <= 0 {
        seq![]
    } else {
        record_warnings(hs, recs, n - 1) + match recs[n - 1] {
            Err(m) => seq![CsvWarningView::UnreadableRecord(n - 1, m)],
            Ok(rec) => {
                let key = trim(field(rec, key_column(hs)));
                if key.len() > 0 && !valid_ftl_id(key) {
                    seq![CsvWarningView::InvalidKey(key, n - 1)]
                } else {
                    seq![]
                }
            },
        }
    }
}

/// The warnings about a header row and the records below it, in order;
/// none when the header row is empty.
pub open spec fn csv_warnings_spec(hs: Seq<Seq<char>>, recs: Seq<Result<Seq<Seq<char>>, Seq<char>>>) -> Seq<
    CsvWarningView,
> {
    if hs.len() == 0 {
        seq![]
    } else {
        header_warnings(hs) + record_warnings(hs, recs, recs.len() as int)
    }
}

proof fn lemma_first_key_header(hs: Seq<Seq<char>>, i: int)
    requires
        0 <= i,
    ensures
        first_key_header(hs, i) < hs.len() ==> first_key_header(hs, i) >= i && is_key_header(
            header_name(hs[first_key_header(hs, i)]),
        ),
    decreases hs.len() - i,
{
    if i < hs.len() && !is_key_header(header_name(hs[i])) {
        lemma_first_key_header(hs, i + 1);
    }
}

/// The warnings about a header row and the records below it (see
/// `table_from_csv_records`), in order: no column headed as a key column,
/// each empty header, then for each record whether it could not be read or
/// has a key that is not a valid identifier. None for an empty header row.
pub fn csv_warnings(header: &Vec<String>, records: &Vec<Result<Vec<String>, String>>) -> (w: Vec<
    CsvWarning,
>)
    ensures
        csv_warning_views(w@) == csv_warnings_spec(fields_view(header@), records_view(records@)),
{
    let mut w: Vec<CsvWarning> = Vec::new();
    let ghost hs = fields_view(header@);
    let ghost recs = records_view(records@);
    if header.len() == 0 {
        assert(csv_warning_views(w@) =~= Seq::<CsvWarningView>::empty());
        return w;
    }
    let (key, context, _cols) = header_columns(header);
    let kv = chars_of(header[key].as_str());
    let kt = trim_chars(kv.as_slice());
    let kn = lower_chars(kt.as_slice());
    if !is_key_name(&kn) {
        w.push(CsvWarning::KeyColumn(header[key].clone()));
    }
    proof {
        lemma_first_key_header(hs, 0);
        if first_key_header(hs, 0) >= hs.len() {
            assert(!is_key_header(header_name(hs[0])));
        }
    }
    let ghost kc = csv_warning_views(w@);
    assert(kc =~= if first_key_header(hs, 0) >= hs.len() {
        seq![CsvWarningView::KeyColumn(hs[0])]
    } else {
        seq![]
    });
    let n = header.len();
    let mut i: usize = 0;
    assert(kc + empty_header_warnings(hs, 0) =~= kc);
    while i < n
        invariant
            n == header@.len(),
            hs == fields_view(header@),
            key as int == key_column(hs),
            context matches Some(cc) ==> context_column(hs) == Some(cc as int),
            context is None ==> context_column(hs) is None,
            i <= n,
            csv_warning_views(w@) == kc + empty_header_warnings(hs, i as int),
        decreases n - i,
    {
        let ghost before = csv_warning_views(w@);
        let is_context = match context {
            Some(cc) => cc == i,
            None => false,
        };
        if i != key && !is_context {
            let v = chars_of(header[i].as_str());
            let t = trim_chars(v.as_slice());
            if t.len() == 0 {
                w.push(CsvWarning::EmptyHeader(i));
                assert(csv_warning_views(w@) =~= before.push(CsvWarningView::EmptyHeader(i as int)));
            }
        }
        assert(kc + empty_header_warnings(hs, i + 1) =~= kc + empty_header_warnings(hs, i as int) + if i
            != key_column(hs) && context_column(hs) != Some(i as int) && trim(hs[i as int]).len() == 0 {
            seq![CsvWarningView::EmptyHeader(i as int)]
        } else {
            seq![]
        });
        i += 1;
    }
    let mut r: usize = 0;
    assert(header_warnings(hs) + record_warnings(hs, recs, 0) =~= header_warnings(hs));
    while r < records.len()
        invariant
            hs == fields_view(header@),
            recs == records_view(records@),
            header@.len() > 0,
            key as int == key_column(hs),
            r <= records@.len(),
            csv_warning_views(w@) == header_warnings(hs) + record_warnings(hs, recs, r as int),
        decreases records@.len() - r,
    {
        let ghost before = csv_warning_views(w@);
        match &records[r] {
            Err(msg) => {
                w.push(CsvWarning::UnreadableRecord(r, msg.clone()));
                assert(csv_warning_views(w@) =~= before.push(CsvWarningView::UnreadableRecord(r as int, msg@)));
            },
            Ok(rec) => {
                assert(recs[r as int] == Ok::<Seq<Seq<char>>, Seq<char>>(fields_view(rec@)));
                let k = trim_string(field_str(rec, key));
                if !k.as_str().is_empty() && !is_valid_ftl_id(k.as_str()) {
                    let ghost kv = k@;
                    w.push(CsvWarning::InvalidKey(k, r));
                    assert(csv_warning_views(w@) =~= before.push(CsvWarningView::InvalidKey(kv, r as int)));
                }
            },
        }
        assert(header_warnings(hs) + record_warnings(hs, recs, r + 1) =~= header_warnings(hs)
            + record_warnings(hs, recs, r as int) + match recs[r as int] {
            Err(m) => seq![CsvWarningView::UnreadableRecord(r as int, m)],
            Ok(rec) => {
                let key = trim(field(rec, key_column(hs)));
                if key.len() > 0 && !valid_ftl_id(key) {
                    seq![CsvWarningView::InvalidKey(key, r as int)]
                } else {
                    seq![]
                }
            },
        });
        r += 1;
    }
    w
}

/// The warnings about the bytes of a CSV file (see `csv_warnings`); none
/// when its header row cannot be read.
pub fn read_csv_warnings(raw: &[u8]) -> (w: Vec<CsvWarning>)
    ensures
        csv_records(without_bom(raw@)) is None ==> w@.len() == 0,
        csv_records(without_bom(raw@)) matches Some((hs, recs)) ==> csv_warning_views(w@)
            == csv_warnings_spec(hs, recs),
{
    let (data, _had_bom) = strip_bom(raw);
    match csv_read_records(data) {
        Err(_) => Vec::new(),
        Ok((header, records)) => csv_warnings(&header, &records),
    }
}

// ---------------------------------------------------------------------------
// Writing
// ---------------------------------------------------------------------------

/// The header row: the key column, the context column when the table has
/// contexts, then the locales.
pub open spec fn header_row(locales: Seq<Seq<char>>, has_context: bool, polyglot: bool) -> Seq<
    Seq<char>,
> {
    let key = if polyglot {
        "STRING ID"@
    } else {
        "key"@
    };
    let ctx = if polyglot {
        "DESCRIPTION"@
    } else {
        "context"@
    };
    seq![key] + (if has_context {
        seq![ctx]
    } else {
        seq![]
    }) + locales
}

/// The translation of `key` into `loc`; empty when there is none.
pub open spec fn cell(
    trans: Map<Seq<char>, Map<Seq<char>, Seq<char>>>,
    key: Seq<char>,
    loc: Seq<char>,
) -> Seq<char> {
    if trans.contains_key(key) && trans[key].contains_key(loc) {
        trans[key][loc]
    } else {
        seq![]
    }
}

/// The row of `key`: the key, its context when the table has contexts
/// (empty when it has none), then its translation into each locale.
pub open spec fn key_row(
    key: Seq<char>,
    locales: Seq<Seq<char>>,
    trans: Map<Seq<char>, Map<Seq<char>, Seq<char>>>,
    ctxs: Map<Seq<char>, Seq<char>>,
    has_context: bool,
) -> Seq<Seq<char>> {
    seq![key] + (if has_context {
        seq![
            if ctxs.contains_key(key) {
                ctxs[key]
            } else {
                seq![]
            },
        ]
    } else {
        seq![]
    }) + locales.map_values(|loc: Seq<char>| cell(trans, key, loc))
}

/// The table has at least one context.
pub open spec fn has_context(t: CsvTable) -> bool {
    t.contexts@ != Map::<Seq<char>, Seq<char>>::empty()
}

/// The CSV rows of a table: the header row, then one row per key, in the
/// order of `t.keys`.
pub open spec fn table_rows(t: CsvTable, polyglot: bool) -> Seq<Seq<Seq<char>>> {
    seq![header_row(string_views(t.locales@), has_context(t), polyglot)] + string_views(
        t.keys@,
    ).map_values(
        |k: Seq<char>|
            key_row(k, string_views(t.locales@), t.translations@, t.contexts@, has_context(t)),
    )
}

/// The chars of each field of each row.
pub open spec fn rows_view(rows: Seq<Vec<String>>) -> Seq<Seq<Seq<char>>> {
    rows.map_values(|row: Vec<String>| fields_view(row@))
}

/// The translation of `key` into `loc`, or `""`.
fn cell_of(table: &CsvTable, key: &str, loc: &str) -> (s: String)
    requires
        table.wf(),
    ensures
        s@ == cell(table.translations@, key@, loc@),
{
    match table.translations.get(key) {
        Some(row) => {
            proof {
                table.translations.lemma_view();
                let i = table.translations.index_of(key@);
                assert(table.translations.val_seq()[i].wf());
            }
            match row.get(loc) {
                Some(v) => v.clone(),
                None => String::new(),
            }
        },
        None => String::new(),
    }
}

/// The CSV rows of a table: a header row (`key` or, with
/// `polyglot_headers`, `STRING ID`; then `context` or `DESCRIPTION` when
/// the table has contexts; then the locales), then one row per key with its
/// context and its translations, empty where there is none.
pub fn csv_rows(table: &CsvTable, polyglot_headers: bool) -> (rows: Vec<Vec<String>>)
    requires
        table.wf(),
    ensures
        rows_view(rows@) == table_rows(*table, polyglot_headers),
{
    let has_ctx = !table.contexts.is_empty();
    let ghost locs = string_views(table.locales@);
    let mut header: Vec<String> = Vec::new();
    proof {
        reveal_strlit("STRING ID");
        reveal_strlit("DESCRIPTION");
        reveal_strlit("key");
        reveal_strlit("context");
    }
    if polyglot_headers {
        header.push("STRING ID".to_owned());
        if has_ctx {
            header.push("DESCRIPTION".to_owned());
        }
    } else {
        header.push("key".to_owned());
        if has_ctx {
            header.push("context".to_owned());
        }
    }
    let ghost head = fields_view(header@);
    let mut i: usize = 0;
    while i < table.locales.len()
        invariant
            i <= table.locales@.len(),
            locs == string_views(table.locales@),
            fields_view(header@) == head + locs.take(i as int),
        decreases table.locales@.len() - i,
    {
        let ghost before = header@;
        let l = table.locales[i].clone();
        header.push(l);
        assert(header@ =~= before.push(l));
        assert(fields_view(header@) =~= fields_view(before).push(l@));
        assert(locs[i as int] == l@);
        assert(locs.take(i + 1) =~= locs.take(i as int).push(l@));
        assert(fields_view(header@) =~= head + locs.take(i + 1));
        i += 1;
    }
    assert(locs.take(table.locales@.len() as int) =~= locs);
    assert(fields_view(header@) =~= header_row(locs, has_context(*table), polyglot_headers));
    let mut rows: Vec<Vec<String>> = Vec::new();
    rows.push(header);
    let ghost keys = string_views(table.keys@);
    let ghost want = table_rows(*table, polyglot_headers);
    let mut j: usize = 0;
    while j < table.keys.len()
        invariant
            table.wf(),
            j <= table.keys@.len(),
            keys == string_views(table.keys@),
            locs == string_views(table.locales@),
            has_ctx == has_context(*table),
            want == table_rows(*table, polyglot_headers),
            rows_view(rows@) == want.take(j + 1),
        decreases table.keys@.len() - j,
    {
        let key = &table.keys[j];
        let mut row: Vec<String> = Vec::new();
        row.push(key.clone());
        if has_ctx {
            match table.contexts.get(key.as_str()) {
                Some(c) => row.push(c.clone()),
                None => row.push(String::new()),
            }
        }
        let ghost head = fields_view(row@);
        let mut m: usize = 0;
        while m < table.locales.len()
            invariant
                table.wf(),
                m <= table.locales@.len(),
                locs == string_views(table.locales@),
                fields_view(row@) == head + locs.take(m as int).map_values(
                    |loc: Seq<char>| cell(table.translations@, key@, loc),
                ),
            decreases table.locales@.len() - m,
        {
            let ghost before = row@;
            let v = cell_of(table, key.as_str(), table.locales[m].as_str());
            row.push(v);
            assert(row@ =~= before.push(v));
            assert(fields_view(row@) =~= fields_view(before).push(v@));
            assert(locs[m as int] == table.locales@[m as int]@);
            assert(locs.take(m + 1) =~= locs.take(m as int).push(locs[m as int]));
            assert(locs.take(m + 1).map_values(|loc: Seq<char>| cell(table.translations@, key@, loc))
                =~= locs.take(m as int).map_values(|loc: Seq<char>| cell(table.translations@, key@, loc)).push(
                cell(table.translations@, key@, locs[m as int]),
            ));
            assert(fields_view(row@) =~= head + locs.take(m + 1).map_values(
                |loc: Seq<char>| cell(table.translations@, key@, loc),
            ));
            m += 1;
        }
        assert(locs.take(table.locales@.len() as int) =~= locs);
        assert(fields_view(row@) =~= key_row(
            key@,
            locs,
            table.translations@,
            table.contexts@,
            has_ctx,
        ));
        let ghost before = rows@;
        rows.push(row);
        assert(rows@ =~= before.push(row));
        assert(keys[j as int] == key@);
        assert(want[j + 1] == fields_view(row@));
        assert(rows_view(rows@) =~= rows_view(before).push(fields_view(row@)));
        assert(want.take(j + 2) =~= want.take(j + 1).push(want[j + 1]));
        assert(rows_view(rows@) =~= want.take(j + 2));
        j += 1;
    }
    assert(want.take(table.keys@.len() as int + 1) =~= want);
    rows
}

/// Writes a table as CSV (no byte order mark) at the end of `out`: the
/// rows of `csv_rows`, encoded by the `csv` crate. All the rows have the
/// same number of fields, so the writing succeeds.
pub fn write_translations_csv(out: &mut Vec<u8>, table: &CsvTable, polyglot_headers: bool) -> (r:
    Result<(), csv::Error>)
    requires
        table.wf(),
    ensures
        r is Ok,
        final(out)@ == old(out)@ + csv_encoding(table_rows(*table, polyglot_headers)),
{
    let rows = csv_rows(table, polyglot_headers);
    proof {
        let t = *table;
        let width = 1 + (if has_context(t) { 1int } else { 0int }) + t.locales@.len();
        assert forall|i: int| 0 <= i < rows@.len() implies (#[trigger] rows@[i])@.len() == width by {
            assert(rows_view(rows@)[i] == fields_view(rows@[i]@));
            let locs = string_views(t.locales@);
            let tr = table_rows(t, polyglot_headers);
            if i == 0 {
                assert(tr[0] == header_row(locs, has_context(t), polyglot_headers));
            } else {
                let ks = string_views(t.keys@);
                assert(tr.len() == rows@.len());
                assert(tr.len() == 1 + ks.len());
                let k = ks[i - 1];
                assert(tr[i] == key_row(k, locs, t.translations@, t.contexts@, has_context(t)));
            }
            assert(tr[i].len() == width);
        }
        assert(rows@.map_values(|row: Vec<String>| fields_view(row@)) == rows_view(rows@));
    }
    match csv_write_records(&rows) {
        Ok(mut bytes) => {
            out.append(&mut bytes);
            Ok(())
        },
        Err(e) => Err(e),
    }
}

} // verus!
