use ftl_csv_convert::ftl::{
    is_valid_ftl_id, parse_ftl_file, render_ftl, Contexts, FtlWarningKind, Messages,
};

#[test]
fn parse_simple_and_comment() {
    let src = "\
# A greeting
hello = Hello World!
bye = Goodbye
";
    let p = parse_ftl_file(src);
    assert_eq!(p.messages.get("hello").unwrap(), "Hello World!");
    assert_eq!(p.contexts.get("hello").unwrap(), "A greeting");
    assert_eq!(p.messages.get("bye").unwrap(), "Goodbye");
}

#[test]
fn roundtrip_godot_placeholder() {
    let mut msgs = Messages::new();
    msgs.insert("ERROR_DEVICE_NOT_FOUND".into(), "No {0} detected.".into());
    let s = render_ftl(&msgs, &Contexts::new());
    assert!(s.contains("No {0} detected."));
    let p = parse_ftl_file(&s);
    assert_eq!(
        p.messages.get("ERROR_DEVICE_NOT_FOUND").unwrap(),
        "No {0} detected."
    );
}

#[test]
fn multiline_value() {
    let src = "\
blurb =
    line one
    line two
";
    let p = parse_ftl_file(src);
    assert_eq!(p.messages.get("blurb").unwrap(), "line one\nline two");
}

#[test]
fn skip_term_and_attr() {
    let src = "\
-brand = Foo
msg = Hi
    .tooltip = tip
";
    let p = parse_ftl_file(src);
    assert!(p.messages.get("-brand").is_none());
    assert_eq!(p.messages.get("msg").unwrap(), "Hi");
}

#[test]
fn id_validation() {
    assert!(is_valid_ftl_id("GAME_TITLE"));
    assert!(is_valid_ftl_id("hello-world"));
    assert!(!is_valid_ftl_id("1bad"));
    assert!(!is_valid_ftl_id("has space"));
}

#[test]
fn id_validation_edges() {
    assert!(!is_valid_ftl_id(""));
    assert!(is_valid_ftl_id("a"));
    assert!(is_valid_ftl_id("a1_-b"));
    assert!(!is_valid_ftl_id("_a"));
    assert!(!is_valid_ftl_id("-a"));
    assert!(!is_valid_ftl_id("a.b"));
    assert!(!is_valid_ftl_id("é"));
}

#[test]
fn render_exact_text() {
    let mut msgs = Messages::new();
    msgs.insert("b".into(), "two".into());
    msgs.insert("a".into(), "one".into());
    msgs.insert("c".into(), "x\ny".into());
    msgs.insert("d".into(), "".into());
    msgs.insert("e".into(), "[tag]".into());
    let mut ctxs = Contexts::new();
    ctxs.insert("a".into(), "first\n\nsecond".into());
    ctxs.insert("z".into(), "unused".into());
    let s = render_ftl(&msgs, &ctxs);
    assert_eq!(
        s,
        "# first\n#\n# second\na = one\n\nb = two\n\nc =\n    x\n    y\n\nd =\n\ne =\n    [tag]\n\n"
    );
}

#[test]
fn render_empty() {
    assert_eq!(render_ftl(&Messages::new(), &Contexts::new()), "");
}

#[test]
fn parse_contexts_and_blank_lines() {
    let src = "# one\n#\n## two  \nk = v\n\n# lost\n\nm = w\n# c\nbad id = x\n    .attr = y\nn = z\n";
    let p = parse_ftl_file(src);
    assert_eq!(p.contexts.get("k").unwrap(), "one\ntwo");
    assert!(p.contexts.get("m").is_none());
    assert!(p.messages.get("bad id").is_none());
    assert!(p.contexts.get("n").is_none());
    assert_eq!(p.messages.get("n").unwrap(), "z");
    assert_eq!(p.messages.len(), 3);
}

#[test]
fn parse_trims_and_crlf() {
    let src = "  key1   =   spaced value  \r\nkey2 = a = b\r\n.orphan = x\nnot a message\nkey3 =\n\tfirst\n   \n    third\n\n";
    let p = parse_ftl_file(src);
    assert_eq!(p.messages.get("key1").unwrap(), "spaced value");
    assert_eq!(p.messages.get("key2").unwrap(), "a = b");
    assert_eq!(p.messages.get("key3").unwrap(), "first\n\nthird");
    assert_eq!(p.messages.len(), 3);
}

#[test]
fn parse_multiline_drops_trailing_empty_lines() {
    let p = parse_ftl_file("k =\n    a\n    \n    \nnext = 1\n");
    assert_eq!(p.messages.get("k").unwrap(), "a");
    assert_eq!(p.messages.get("next").unwrap(), "1");
}

#[test]
fn parse_term_body_skipped() {
    let p = parse_ftl_file("-term = x\n    more\n    .attr = y\nafter = ok\n");
    assert_eq!(p.messages.len(), 1);
    assert_eq!(p.messages.get("after").unwrap(), "ok");
}

#[test]
fn parse_later_duplicate_wins() {
    let p = parse_ftl_file("# c\nk = a\nk = b\n");
    assert_eq!(p.messages.get("k").unwrap(), "b");
    assert_eq!(p.contexts.get("k").unwrap(), "c");
}

#[test]
fn render_then_parse_gives_messages_back() {
    let mut msgs = Messages::new();
    msgs.insert("GAME_TITLE".into(), "Just Keep Chasing".into());
    msgs.insert("multi".into(), "line one\nline two".into());
    msgs.insert("empty".into(), "".into());
    let mut ctxs = Contexts::new();
    ctxs.insert("GAME_TITLE".into(), "  Use {0} in place of [device]  \n\n second".into());
    let s = render_ftl(&msgs, &ctxs);
    let p = parse_ftl_file(&s);
    assert_eq!(p.messages.len(), msgs.len());
    for i in 0..msgs.len() {
        let k = msgs.key_at(i);
        assert_eq!(p.messages.get(k).unwrap(), msgs.value_at(i));
    }
    assert_eq!(p.contexts.len(), 1);
    assert_eq!(p.contexts.get("GAME_TITLE").unwrap(), "Use {0} in place of [device]\nsecond");
}

#[test]
fn warnings_about_skipped_lines() {
    let src = "\
-brand = Foo
    .gender = masculine

.orphan = x
1bad = y
    continued
sel = { $n -> *[one] One }
    .title = T
    .aria = A
what is this
ok = fine
";
    let p = parse_ftl_file(src);
    let got: Vec<(FtlWarningKind, &str)> = p.warnings.iter().map(|w| (w.kind, w.text.as_str())).collect();
    assert_eq!(
        got,
        vec![
            (FtlWarningKind::Term, "-brand = Foo"),
            (FtlWarningKind::AttributeLine, ".orphan = x"),
            (FtlWarningKind::InvalidId, "1bad"),
            (FtlWarningKind::Selector, "sel"),
            (FtlWarningKind::Attribute, "sel"),
            (FtlWarningKind::Attribute, "sel"),
            (FtlWarningKind::Unrecognized, "what is this"),
        ]
    );
    assert_eq!(p.messages.get("sel").unwrap(), "{ $n -> *[one] One }");
    assert_eq!(p.messages.get("ok").unwrap(), "fine");
    assert_eq!(p.messages.len(), 2);
}

#[test]
fn long_lines_are_shortened_in_warnings() {
    let line = "x".repeat(70);
    let p = parse_ftl_file(&line);
    assert_eq!(p.warnings.len(), 1);
    assert_eq!(p.warnings[0].kind, FtlWarningKind::Unrecognized);
    assert_eq!(p.warnings[0].text, format!("{}\u{2026}", "x".repeat(60)));
    let term = format!("-{}", "t".repeat(50));
    let p = parse_ftl_file(&term);
    assert_eq!(p.warnings[0].kind, FtlWarningKind::Term);
    assert_eq!(p.warnings[0].text, format!("-{}\u{2026}", "t".repeat(49)));
    let p = parse_ftl_file("hello = World\n");
    assert!(p.warnings.is_empty());
}

#[test]
fn attributes_after_multiline_value_are_skipped() {
    let p = parse_ftl_file("msg =\n    line one\n    .tooltip = tip\n    .aria = a\nnext = n\n");
    assert_eq!(p.messages.get("msg").unwrap(), "line one");
    assert_eq!(p.messages.get("next").unwrap(), "n");
    let got: Vec<(FtlWarningKind, &str)> = p.warnings.iter().map(|w| (w.kind, w.text.as_str())).collect();
    assert_eq!(got, vec![(FtlWarningKind::Attribute, "msg"), (FtlWarningKind::Attribute, "msg")]);
}

#[test]
fn value_starting_with_a_dot_reads_back_as_attribute() {
    let mut msgs = Messages::new();
    msgs.insert("dotted".into(), ".starts with a dot".into());
    let s = render_ftl(&msgs, &Contexts::new());
    assert_eq!(s, "dotted =\n    .starts with a dot\n\n");
    let p = parse_ftl_file(&s);
    assert_eq!(p.messages.get("dotted").unwrap(), "");
    assert_eq!(p.warnings.len(), 1);
    assert_eq!(p.warnings[0].kind, FtlWarningKind::Attribute);
}
