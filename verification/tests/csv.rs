use ftl_csv_convert::convert::{ftl_files, locale_messages, table_from_locales};
use ftl_csv_convert::csv_io::{
    csv_rows, csv_warnings, read_csv_warnings, read_translations_csv, strip_bom,
    table_from_csv_records, write_translations_csv, CsvReadError, CsvTable, CsvWarning,
};
use ftl_csv_convert::ftl::{parse_ftl_file, render_ftl, Contexts, Messages, ParsedFtl};
use ftl_csv_convert::sorted_map::SortedMap;

fn strings(v: &[&str]) -> Vec<String> {
    v.iter().map(|s| s.to_string()).collect()
}

fn sample_table() -> CsvTable {
    let mut translations: SortedMap<SortedMap<String>> = SortedMap::new();
    let mut title = SortedMap::new();
    title.insert("en".to_string(), "Just Keep Chasing".to_string());
    title.insert("fr".to_string(), "Continue, cours".to_string());
    translations.insert("GAME_TITLE".to_string(), title);
    let mut greet = SortedMap::new();
    greet.insert("en".to_string(), "Hi".to_string());
    translations.insert("GREETING".to_string(), greet);
    let mut contexts = SortedMap::new();
    contexts.insert("GREETING".to_string(), "say \"hi\"".to_string());
    CsvTable {
        locales: strings(&["en", "fr"]),
        keys: strings(&["GAME_TITLE", "GREETING"]),
        translations,
        contexts,
    }
}

#[test]
fn strip_bom_cases() {
    let with = [0xEF, 0xBB, 0xBF, b'a'];
    let (rest, had) = strip_bom(&with);
    assert!(had);
    assert_eq!(rest, b"a");
    let (rest, had) = strip_bom(b"abc");
    assert!(!had);
    assert_eq!(rest, b"abc");
    let (rest, had) = strip_bom(&[0xEF, 0xBB]);
    assert!(!had);
    assert_eq!(rest, &[0xEF, 0xBB]);
}

#[test]
fn rows_of_table() {
    let t = sample_table();
    let rows = csv_rows(&t, false);
    assert_eq!(rows[0], strings(&["key", "context", "en", "fr"]));
    assert_eq!(rows[1], strings(&["GAME_TITLE", "", "Just Keep Chasing", "Continue, cours"]));
    assert_eq!(rows[2], strings(&["GREETING", "say \"hi\"", "Hi", ""]));
    assert_eq!(rows.len(), 3);
    let rows = csv_rows(&t, true);
    assert_eq!(rows[0], strings(&["STRING ID", "DESCRIPTION", "en", "fr"]));
}

#[test]
fn rows_without_contexts() {
    let mut t = sample_table();
    t.contexts = SortedMap::new();
    let rows = csv_rows(&t, true);
    assert_eq!(rows[0], strings(&["STRING ID", "en", "fr"]));
    assert_eq!(rows[2], strings(&["GREETING", "Hi", ""]));
}

#[test]
fn write_csv_exact_bytes() {
    let t = sample_table();
    let mut out = b"prefix|".to_vec();
    write_translations_csv(&mut out, &t, false).unwrap();
    assert_eq!(
        String::from_utf8(out).unwrap(),
        "prefix|key,context,en,fr\nGAME_TITLE,,Just Keep Chasing,\"Continue, cours\"\nGREETING,\"say \"\"hi\"\"\",Hi,\n"
    );
}

#[test]
fn write_then_read_gives_table_back() {
    let t = sample_table();
    let mut out = Vec::new();
    write_translations_csv(&mut out, &t, true).unwrap();
    let back = read_translations_csv(&out).unwrap();
    assert_eq!(back.locales, t.locales);
    assert_eq!(back.keys, t.keys);
    assert_eq!(back.contexts.get("GREETING").unwrap(), "say \"hi\"");
    assert!(back.contexts.get("GAME_TITLE").is_none());
    assert_eq!(back.translations.get("GAME_TITLE").unwrap().get("fr").unwrap(), "Continue, cours");
    assert_eq!(back.translations.get("GREETING").unwrap().get("en").unwrap(), "Hi");
    assert!(back.translations.get("GREETING").unwrap().get("fr").is_none());
}

#[test]
fn read_polyglot_with_bom() {
    let mut raw = vec![0xEF, 0xBB, 0xBF];
    raw.extend_from_slice(
        "STRING ID,DESCRIPTION,en,fr,ja\nERROR_DEVICE_NOT_FOUND,\" Use {0} in place of [device] \",No {0} detected.,Aucun {0} détecté.,\n ,ignored,x,y,z\nzeta,,Z,,\nalpha,,A\n"
            .as_bytes(),
    );
    let t = read_translations_csv(&raw).unwrap();
    assert_eq!(t.locales, strings(&["en", "fr", "ja"]));
    assert_eq!(t.keys, strings(&["ERROR_DEVICE_NOT_FOUND", "alpha", "zeta"]));
    assert_eq!(
        t.contexts.get("ERROR_DEVICE_NOT_FOUND").unwrap(),
        "Use {0} in place of [device]"
    );
    let row = t.translations.get("ERROR_DEVICE_NOT_FOUND").unwrap();
    assert_eq!(row.get("en").unwrap(), "No {0} detected.");
    assert_eq!(row.get("fr").unwrap(), "Aucun {0} détecté.");
    assert!(row.get("ja").is_none());
    assert_eq!(t.translations.get("alpha").unwrap().len(), 1);
    assert_eq!(t.translations.get("zeta").unwrap().len(), 1);
}

#[test]
fn read_header_rules() {
    // the key column is found by name; other key/context headers and empty headers are no locales
    let t = read_translations_csv(b"en, Key ,notes,,ID,Comment,de\nhello,k1,n,x,y,c,hallo\n").unwrap();
    assert_eq!(t.locales, strings(&["en", "de"]));
    assert_eq!(t.keys, strings(&["k1"]));
    assert_eq!(t.contexts.get("k1").unwrap(), "n");
    let row = t.translations.get("k1").unwrap();
    assert_eq!(row.get("en").unwrap(), "hello");
    assert_eq!(row.get("de").unwrap(), "hallo");
    // no key header: the first column is the key column
    let t = read_translations_csv(b"name,en\n key ,v\n").unwrap();
    assert_eq!(t.locales, strings(&["en"]));
    assert_eq!(t.keys, strings(&["key"]));
    assert_eq!(t.contexts.len(), 0);
}

#[test]
fn read_later_row_replaces_earlier() {
    let t = read_translations_csv(b"key,context,en,fr\nk,c1,a,b\nk,,c,\n").unwrap();
    assert_eq!(t.keys, strings(&["k"]));
    let row = t.translations.get("k").unwrap();
    assert_eq!(row.get("en").unwrap(), "c");
    assert!(row.get("fr").is_none());
    assert_eq!(t.contexts.get("k").unwrap(), "c1");
}

#[test]
fn read_errors() {
    match read_translations_csv(b"") {
        Err(CsvReadError::NoHeaderRow) => {}
        _ => panic!("expected NoHeaderRow"),
    }
    match read_translations_csv(&[0xEF, 0xBB, 0xBF]) {
        Err(CsvReadError::NoHeaderRow) => {}
        _ => panic!("expected NoHeaderRow"),
    }
    match read_translations_csv(&[b'k', 0xFF, b'\n']) {
        Err(CsvReadError::Csv(_)) => {}
        _ => panic!("expected a csv error"),
    }
}

#[test]
fn read_skips_unreadable_rows() {
    let mut raw = b"key,en\nok,fine\nbad,".to_vec();
    raw.push(0xFF);
    raw.extend_from_slice(b"\nalso,good\n");
    let t = read_translations_csv(&raw).unwrap();
    assert_eq!(t.keys, strings(&["also", "ok"]));
}

#[test]
fn records_to_table() {
    let header = strings(&["key", "en"]);
    let records = vec![Ok(strings(&["a", "1"])), Err("bad record".to_string()), Ok(strings(&[""]))];
    let t = table_from_csv_records(&header, &records).unwrap();
    assert_eq!(t.keys, strings(&["a"]));
    match table_from_csv_records(&Vec::new(), &records) {
        Err(CsvReadError::NoHeaderRow) => {}
        _ => panic!("expected NoHeaderRow"),
    }
}

fn parsed(src: &str) -> ParsedFtl {
    parse_ftl_file(src)
}

#[test]
fn table_from_locale_files() {
    let files = vec![
        ("fr".to_string(), parsed("# contexte\ntitle = Titre\nonly_fr = F\n")),
        ("en".to_string(), parsed("# context\ntitle = Title\n# e\nonly_en = E\n")),
    ];
    let t = table_from_locales(&files);
    assert_eq!(t.locales, strings(&["en", "fr"]));
    assert_eq!(t.keys, strings(&["only_en", "only_fr", "title"]));
    assert_eq!(t.contexts.get("title").unwrap(), "context");
    assert_eq!(t.contexts.get("only_en").unwrap(), "e");
    let row = t.translations.get("title").unwrap();
    assert_eq!(row.get("en").unwrap(), "Title");
    assert_eq!(row.get("fr").unwrap(), "Titre");
    assert_eq!(t.translations.get("only_fr").unwrap().len(), 1);
}

#[test]
fn table_from_no_files() {
    let t = table_from_locales(&Vec::new());
    assert!(t.locales.is_empty());
    assert!(t.keys.is_empty());
}

#[test]
fn messages_of_a_locale() {
    let t = read_translations_csv(b"key,en,fr\nGOOD,yes,\nbad key,x,y\n1bad,x,y\nOTHER,,oui\n").unwrap();
    let en = locale_messages(&t, "en");
    assert_eq!(en.len(), 1);
    assert_eq!(en.get("GOOD").unwrap(), "yes");
    let fr = locale_messages(&t, "fr");
    assert_eq!(fr.len(), 1);
    assert_eq!(fr.get("OTHER").unwrap(), "oui");
    assert_eq!(locale_messages(&t, "de").len(), 0);
}

#[test]
fn csv_to_ftl_to_csv() {
    let raw = "STRING ID,DESCRIPTION,en,fr\nGAME_TITLE,,Just Keep Chasing,Continue\nERROR_DEVICE_NOT_FOUND,Use {0} in place of [device],No {0} detected.,Aucun {0}.\n";
    let t = read_translations_csv(raw.as_bytes()).unwrap();
    let en = render_ftl(&locale_messages(&t, "en"), &t.contexts);
    assert!(en.contains("GAME_TITLE = Just Keep Chasing"));
    assert!(en.contains("ERROR_DEVICE_NOT_FOUND = No {0} detected."));
    assert!(en.contains("# Use {0} in place of [device]"));
    let fr = render_ftl(&locale_messages(&t, "fr"), &t.contexts);
    let files = vec![
        ("en".to_string(), parse_ftl_file(&en)),
        ("fr".to_string(), parse_ftl_file(&fr)),
    ];
    let back = table_from_locales(&files);
    let mut out = Vec::new();
    write_translations_csv(&mut out, &back, true).unwrap();
    assert_eq!(
        String::from_utf8(out).unwrap(),
        "STRING ID,DESCRIPTION,en,fr\nERROR_DEVICE_NOT_FOUND,Use {0} in place of [device],No {0} detected.,Aucun {0}.\nGAME_TITLE,,Just Keep Chasing,Continue\n"
    );
}

#[test]
fn empty_messages_and_contexts() {
    let m: Messages = Messages::new();
    let c: Contexts = Contexts::new();
    assert!(m.is_empty());
    assert!(c.is_empty());
}

fn same_table(a: &CsvTable, b: &CsvTable) {
    assert_eq!(a.locales, b.locales);
    assert_eq!(a.keys, b.keys);
    assert_eq!(a.translations.len(), b.translations.len());
    for i in 0..a.translations.len() {
        assert_eq!(a.translations.key_at(i), b.translations.key_at(i));
        let (ra, rb) = (a.translations.value_at(i), b.translations.value_at(i));
        assert_eq!(ra.len(), rb.len());
        for j in 0..ra.len() {
            assert_eq!(ra.key_at(j), rb.key_at(j));
            assert_eq!(ra.value_at(j), rb.value_at(j));
        }
    }
    assert_eq!(a.contexts.len(), b.contexts.len());
    for i in 0..a.contexts.len() {
        assert_eq!(a.contexts.key_at(i), b.contexts.key_at(i));
        assert_eq!(a.contexts.value_at(i), b.contexts.value_at(i));
    }
}

#[test]
fn rows_read_back_as_table() {
    let t = sample_table();
    for polyglot in [false, true] {
        let rows = csv_rows(&t, polyglot);
        let records: Vec<Result<Vec<String>, String>> = rows[1..].iter().cloned().map(Ok).collect();
        let back = table_from_csv_records(&rows[0], &records).unwrap();
        same_table(&back, &t);
    }
}

#[test]
fn read_write_read_is_stable() {
    let raw = " Key ,notes,en,fr,\nzeta , z ,Z,,\n,x,y,z\nalpha,,A,B\n";
    let first = read_translations_csv(raw.as_bytes()).unwrap();
    assert_eq!(first.keys, strings(&["alpha", "zeta"]));
    assert_eq!(first.contexts.get("zeta").unwrap(), "z");
    for polyglot in [false, true] {
        let mut out = Vec::new();
        write_translations_csv(&mut out, &first, polyglot).unwrap();
        let second = read_translations_csv(&out).unwrap();
        same_table(&second, &first);
    }
}

#[test]
fn ftl_files_give_table_back() {
    let raw = "key,context,en,fr\nhello,\"  Greeting \n\n  on two lines \",Hello,Bonjour\nbye,,Bye,\nbad key,x,y,z\nnone,c,,\n";
    let t = read_translations_csv(raw.as_bytes()).unwrap();
    let mut files = Vec::new();
    for loc in &t.locales {
        let text = render_ftl(&locale_messages(&t, loc), &t.contexts);
        files.push((loc.clone(), parse_ftl_file(&text)));
    }
    let back = table_from_locales(&files);
    assert_eq!(back.locales, strings(&["en", "fr"]));
    assert_eq!(back.keys, strings(&["bye", "hello"]));
    let hello = back.translations.get("hello").unwrap();
    assert_eq!(hello.get("en").unwrap(), "Hello");
    assert_eq!(hello.get("fr").unwrap(), "Bonjour");
    let bye = back.translations.get("bye").unwrap();
    assert_eq!(bye.len(), 1);
    assert_eq!(bye.get("en").unwrap(), "Bye");
    assert_eq!(back.contexts.len(), 1);
    assert_eq!(back.contexts.get("hello").unwrap(), "Greeting\non two lines");
}

#[test]
fn csv_warnings_in_order() {
    let header = strings(&["name", "notes", " ", "en", ""]);
    let records = vec![
        Ok(strings(&["good_key", "n", "x", "hello"])),
        Err("broken".to_string()),
        Ok(strings(&[" bad key ", "", "", "v"])),
        Ok(strings(&["  "])),
    ];
    let w = csv_warnings(&header, &records);
    assert_eq!(w.len(), 5);
    assert!(matches!(&w[0], CsvWarning::KeyColumn(h) if h == "name"));
    assert!(matches!(&w[1], CsvWarning::EmptyHeader(2)));
    assert!(matches!(&w[2], CsvWarning::EmptyHeader(4)));
    assert!(matches!(&w[3], CsvWarning::UnreadableRecord(1, m) if m == "broken"));
    assert!(matches!(&w[4], CsvWarning::InvalidKey(k, 2) if k == "bad key"));
}

#[test]
fn csv_warnings_none_for_clean_file() {
    let w = read_csv_warnings(b"STRING ID,DESCRIPTION,en
GAME_TITLE,,Title
");
    assert!(w.is_empty());
    assert!(read_csv_warnings(b"").is_empty());
    assert!(csv_warnings(&Vec::new(), &Vec::new()).is_empty());
}

#[test]
fn csv_warnings_from_bytes() {
    let mut raw = b"key,en
ok,fine
bad,".to_vec();
    raw.push(0xFF);
    raw.extend_from_slice(b"
1x,y
");
    let w = read_csv_warnings(&raw);
    assert_eq!(w.len(), 2);
    assert!(matches!(&w[0], CsvWarning::UnreadableRecord(1, m) if !m.is_empty()));
    assert!(matches!(&w[1], CsvWarning::InvalidKey(k, 2) if k == "1x"));
}

#[test]
fn ftl_files_of_a_table() {
    let t = read_translations_csv(b"key,context,en,fr\nhello,greets,Hello,\nbye,,Bye,Salut\n").unwrap();
    let files = ftl_files(&t).unwrap();
    assert_eq!(files.len(), 2);
    assert_eq!(files[0].0, "en");
    assert_eq!(files[0].1.len(), 2);
    assert_eq!(files[0].2, "bye = Bye\n\n# greets\nhello = Hello\n\n");
    assert_eq!(files[1].0, "fr");
    assert_eq!(files[1].1.len(), 1);
    assert_eq!(files[1].2, "bye = Salut\n\n");
    let none = read_translations_csv(b"key\nhello\n").unwrap();
    assert!(ftl_files(&none).is_none());
}

#[test]
fn write_quotes_only_where_needed() {
    let mut translations: SortedMap<SortedMap<String>> = SortedMap::new();
    let mut row = SortedMap::new();
    row.insert("en".to_string(), "a\rb".to_string());
    row.insert("fr".to_string(), "x y".to_string());
    translations.insert("k".to_string(), row);
    let t = CsvTable {
        locales: strings(&["en", "fr"]),
        keys: strings(&["k"]),
        translations,
        contexts: SortedMap::new(),
    };
    let mut out = Vec::new();
    write_translations_csv(&mut out, &t, false).unwrap();
    assert_eq!(out, b"key,en,fr\nk,\"a\rb\",x y\n".to_vec());
    assert!(!out.starts_with(&[0xEF, 0xBB, 0xBF]));
    let one = CsvTable { locales: Vec::new(), keys: strings(&["k"]), translations: SortedMap::new(), contexts: SortedMap::new() };
    let mut out = Vec::new();
    write_translations_csv(&mut out, &one, true).unwrap();
    assert_eq!(out, b"STRING ID\nk\n".to_vec());
}
