# ftl_csv_convert

Converts between Fluent message files (`<locales>/<locale>/main.ftl`) and one
CSV table for spreadsheet editing (`key,context,en,fr,...` or the polyglot
headers `STRING ID,DESCRIPTION,en,fr,...`). The library is written in Verus:
every function states what it computes, and Verus proves it, except three
trusted wrappers (`csv_read_records` and `csv_write_records` around the `csv`
crate, `push_char` around `String::push`), whose contracts are taken as
given.

## Layout

- `src/text.rs`: strings as sequences of `char`: trimming, lines, joining,
  the order of `String`, a stable sort.
- `src/sorted_map.rs`: `SortedMap`, a string-keyed map walked in ascending
  key order, viewed as a `Map`.
- `src/ftl.rs`: reading (`parse_ftl_file`, with its warnings) and writing
  (`render_ftl`) flat `.ftl` files.
- `src/ftl_laws.rs`: reading back what `render_ftl` wrote gives the
  messages back, and their contexts in normalized form.
- `src/csv_io.rs`: the table, reading it from CSV bytes and writing it as
  CSV; the `csv` crate reads and writes the bytes, behind two trusted
  wrappers. The bytes written are stated (quotes only where needed, no byte
  order mark), and what is written reads back as the same table.
- `src/csv_laws.rs`: reading back the rows a table is written as gives the
  table; a table that was read is one for which this holds.
- `src/convert.rs`: the table of all locales from their parsed files (a
  key's context comes from the first locale in ascending order), and the
  `.ftl` files of each locale from the table.
- `src/convert_laws.rs`: writing the `.ftl` files of a table and building
  the table from them again keeps its non-empty translations of valid keys.
- `app/main.rs`: the command line tool (arguments, files, messages).
- `tests/`: scenarios on concrete values.

## Commands

```
ftl-csv-convert [-d <locales dir>] [--polyglot] [ftl2csv] [OUTPUT.csv]
ftl-csv-convert [-d <locales dir>] csv2ftl INPUT.csv
```
